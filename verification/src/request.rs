use vstd::prelude::*;

verus! {

/// The HTTP method of a request descriptor.
#[derive(Debug, PartialEq, Eq, Structural)]
pub enum Method {
    Get,
}

impl Default for Method {
    fn default() -> (r: Self)
        ensures
            r == Method::Get,
    {
        Method::Get
    }
}

/// An immutable description of one request to issue: a method, a target
/// URL and an optional structured query.
#[derive(Debug)]
pub struct Request<'a, Q> {
    pub method: &'a Method,
    pub url: &'a str,
    pub query: Option<&'a Q>,
}

impl<'a, Q> Request<'a, Q> {
    pub fn new(method: &'a Method, url: &'a str, query: Option<&'a Q>) -> (r: Self)
        ensures
            r.method == method,
            r.url == url,
            r.query == query,
    {
        Request { method, url, query }
    }

    pub fn method(&self) -> (r: &'a Method)
        ensures
            r == self.method,
    {
        self.method
    }

    pub fn url(&self) -> (r: &'a str)
        ensures
            r == self.url,
    {
        self.url
    }

    pub fn query(&self) -> (r: Option<&'a Q>)
        ensures
            r == self.query,
    {
        self.query
    }

    pub fn builder() -> (b: RequestBuilder<'a, Q>)
        ensures
            b.method is None,
            b.url is None,
            b.query is None,
    {
        RequestBuilder { method: None, url: None, query: None }
    }
}

/// Step-by-step construction of a `Request`; `build` demands that every
/// field has been supplied.
#[derive(Debug)]
pub struct RequestBuilder<'a, Q> {
    pub method: Option<&'a Method>,
    pub url: Option<&'a str>,
    pub query: Option<Option<&'a Q>>,
}

impl<'a, Q> RequestBuilder<'a, Q> {
    pub fn method(self, method: &'a Method) -> (b: Self)
        ensures
            b.method == Some(method),
            b.url == self.url,
            b.query == self.query,
    {
        RequestBuilder { method: Some(method), ..self }
    }

    pub fn url(self, url: &'a str) -> (b: Self)
        ensures
            b.method == self.method,
            b.url == Some(url),
            b.query == self.query,
    {
        RequestBuilder { url: Some(url), ..self }
    }

    pub fn query(self, query: Option<&'a Q>) -> (b: Self)
        ensures
            b.method == self.method,
            b.url == self.url,
            b.query == Some(query),
    {
        RequestBuilder { query: Some(query), ..self }
    }

    pub fn build(self) -> (r: Request<'a, Q>)
        requires
            self.method is Some,
            self.url is Some,
            self.query is Some,
        ensures
            r.method == self.method->0,
            r.url == self.url->0,
            r.query == self.query->0,
    {
        Request { method: self.method.unwrap(), url: self.url.unwrap(), query: self.query.unwrap() }
    }
}

} // verus!
