use crate::utils::{dec_str, u32_to_string};
use vstd::arithmetic::div_mod::{
    lemma_div_by_multiple, lemma_div_is_ordered, lemma_div_multiples_vanish_fancy,
    lemma_div_nonincreasing, lemma_div_plus_one, lemma_div_pos_is_pos, lemma_fundamental_div_mod,
    lemma_mod_division_less_than_divisor,
};
use vstd::arithmetic::mul::{
    lemma_mul_inequality, lemma_mul_is_commutative, lemma_mul_is_distributive_add,
    lemma_mul_is_distributive_sub, lemma_mul_upper_bound,
};
use vstd::prelude::*;
use vstd::string::StringExecFns;

verus! {

/// The page size the remote service is asked for when the caller names none.
pub const DEFAULT_DECK_FETCH_COUNT: u32 = 5000;

#[derive(Debug, Clone, Copy, PartialEq, Eq, Structural)]
pub enum DeckCategory {
    Community,
    Budget,
    Featured,
}

impl Default for DeckCategory {
    fn default() -> (r: Self)
        ensures
            r == DeckCategory::Community,
    {
        DeckCategory::Community
    }
}

#[derive(Debug, Clone, Copy, PartialEq, Eq, Structural)]
pub enum DeckSort {
    RecentlyUpdated,
    Hot,
    Popularity,
}

impl Default for DeckSort {
    fn default() -> (r: Self)
        ensures
            r == DeckSort::RecentlyUpdated,
    {
        DeckSort::RecentlyUpdated
    }
}

pub open spec fn sort_query_chars(s: DeckSort) -> Seq<char> {
    match s {
        DeckSort::RecentlyUpdated => "recently_updated"@,
        DeckSort::Hot => "hot"@,
        DeckSort::Popularity => "popularity"@,
    }
}

/// The value the remote service expects for `sortBy`.
pub fn sort_query_value(s: DeckSort) -> (r: &'static str)
    ensures
        r@ == sort_query_chars(s),
{
    match s {
        DeckSort::RecentlyUpdated => "recently_updated",
        DeckSort::Hot => "hot",
        DeckSort::Popularity => "popularity",
    }
}

pub open spec fn category_query_chars(c: DeckCategory) -> Seq<char> {
    match c {
        DeckCategory::Community => "COMMUNITY"@,
        DeckCategory::Budget => "BUDGET"@,
        DeckCategory::Featured => "FEATURED"@,
    }
}

/// The value the remote service expects for `category`.
pub fn category_query_value(c: DeckCategory) -> (r: &'static str)
    ensures
        r@ == category_query_chars(c),
{
    match c {
        DeckCategory::Community => "COMMUNITY",
        DeckCategory::Budget => "BUDGET",
        DeckCategory::Featured => "FEATURED",
    }
}

/// The query of one deck-library page request: which slice of the remote
/// collection to return, in which order, from which category. Absent
/// fields are left out of the query string.
#[derive(Debug, Clone, Copy)]
pub struct DeckUri {
    pub sort_by: Option<DeckSort>,
    pub from: Option<u32>,
    pub count: u32,
    pub category: Option<DeckCategory>,
}

impl Default for DeckUri {
    fn default() -> (r: Self)
        ensures
            r == (DeckUri {
                sort_by: Some(DeckSort::RecentlyUpdated),
                from: Some(0u32),
                count: DEFAULT_DECK_FETCH_COUNT,
                category: Some(DeckCategory::Community),
            }),
    {
        DeckUri {
            sort_by: Some(DeckSort::default()),
            from: Some(0u32),
            count: DEFAULT_DECK_FETCH_COUNT,
            category: Some(DeckCategory::default()),
        }
    }
}

impl DeckUri {
    pub fn new(count: Option<u32>) -> (r: Self)
        ensures
            r == (DeckUri {
                sort_by: Some(DeckSort::RecentlyUpdated),
                from: Some(0u32),
                count: (match count {
                    Some(c) => c,
                    None => DEFAULT_DECK_FETCH_COUNT,
                }),
                category: Some(DeckCategory::Community),
            }),
    {
        let base = DeckUri::default();
        DeckUri {
            count: match count {
                Some(c) => c,
                None => DEFAULT_DECK_FETCH_COUNT,
            },
            ..base
        }
    }

    pub fn create(
        sort_by: Option<DeckSort>,
        from: Option<u32>,
        count: Option<u32>,
        category: Option<DeckCategory>,
    ) -> (r: Self)
        ensures
            r == (DeckUri {
                sort_by,
                from,
                count: (match count {
                    Some(c) => c,
                    None => DEFAULT_DECK_FETCH_COUNT,
                }),
                category,
            }),
    {
        DeckUri {
            sort_by,
            from,
            count: match count {
                Some(c) => c,
                None => DEFAULT_DECK_FETCH_COUNT,
            },
            category,
        }
    }

    /// The query string of this request, fields in the order the remote
    /// service documents, absent fields omitted.
    pub open spec fn query_chars(self) -> Seq<char> {
        (if self.sort_by is Some {
            "sortBy="@ + sort_query_chars(self.sort_by->0) + "&"@
        } else {
            Seq::<char>::empty()
        }) + (if self.from is Some {
            "from="@ + dec_str(self.from->0 as nat) + "&"@
        } else {
            Seq::<char>::empty()
        }) + "count="@ + dec_str(self.count as nat) + (if self.category is Some {
            "&category="@ + category_query_chars(self.category->0)
        } else {
            Seq::<char>::empty()
        })
    }

    /// The full URI of this request against the deck-library endpoint.
    pub open spec fn uri_chars(self) -> Seq<char> {
        "https://lor.mobalytics.gg/api/v2/"@ + "decks/library"@ + "?"@ + self.query_chars()
    }

    /// Render the full request URI.
    pub fn to_string(&self) -> (s: String)
        ensures
            s@ == self.uri_chars(),
    {
        let mut s = String::from_str("https://lor.mobalytics.gg/api/v2/");
        s.append("decks/library");
        s.append("?");
        match self.sort_by {
            Some(v) => {
                s.append("sortBy=");
                s.append(sort_query_value(v));
                s.append("&");
            },
            None => {},
        }
        match self.from {
            Some(v) => {
                s.append("from=");
                let n = u32_to_string(v);
                s.append(n.as_str());
                s.append("&");
            },
            None => {},
        }
        s.append("count=");
        let c = u32_to_string(self.count);
        s.append(c.as_str());
        match self.category {
            Some(v) => {
                s.append("&category=");
                s.append(category_query_value(v));
            },
            None => {},
        }
        proof {
            assert(s@ =~= self.uri_chars());
        }
        s
    }
}

/// The least multiple-count: how many buckets of size `b` cover `a`.
pub open spec fn ceil_div(a: nat, b: nat) -> nat
    recommends
        b >= 1,
{
    if a == 0 {
        0
    } else {
        (a - 1) as nat / b + 1
    }
}

/// How many entities are requested in all: `total` scaled by the
/// overfetch ratio `num / den`, rounded up.
pub open spec fn overfetch_target(total: nat, num: nat, den: nat) -> nat {
    ceil_div(total * num, den)
}

/// How many page requests the plan holds.
pub open spec fn page_count(target: nat, page_size: nat) -> nat {
    ceil_div(target, page_size)
}

/// How many entities page `i` of the plan requests: a full page for every
/// page but the last, and the remainder (a full page when the remainder is
/// zero) for the last.
pub open spec fn page_request_count(i: nat, target: nat, page_size: nat) -> nat {
    if i + 1 < page_count(target, page_size) {
        page_size
    } else if target % page_size == 0 {
        page_size
    } else {
        target % page_size
    }
}

/// The request planned for page `i`.
pub open spec fn planned_page(
    i: nat,
    target: nat,
    page_size: nat,
    sort_by: Option<DeckSort>,
    category: Option<DeckCategory>,
) -> DeckUri {
    DeckUri {
        sort_by,
        from: Some((i * page_size) as u32),
        count: page_request_count(i, target, page_size) as u32,
        category,
    }
}

/// The whole plan for a target of `target` entities.
pub open spec fn planned_pages(
    target: nat,
    page_size: nat,
    sort_by: Option<DeckSort>,
    category: Option<DeckCategory>,
) -> Seq<DeckUri> {
    Seq::new(page_count(target, page_size), |i: int| planned_page(i as nat, target, page_size, sort_by, category))
}

pub proof fn lemma_ceil_div_props(a: nat, b: nat)
    requires
        b >= 1,
    ensures
        a % b == 0 ==> ceil_div(a, b) == a / b,
        a % b != 0 ==> ceil_div(a, b) == a / b + 1,
        ceil_div(a, b) * b >= a,
        ceil_div(a, b) <= a,
        a > 0 ==> ceil_div(a, b) >= 1,
        a > 0 ==> (ceil_div(a, b) - 1) * b < a,
{
    if a == 0 {
        assert(ceil_div(a, b) == 0);
        assert(0nat * b == 0) by {
            lemma_mul_is_commutative(0, b as int);
        }
    } else {
        let q = a as int / b as int;
        let r = a as int % b as int;
        lemma_fundamental_div_mod(a as int, b as int);
        lemma_mod_division_less_than_divisor(a as int, b as int);
        lemma_div_pos_is_pos(a as int, b as int);
        assert(a == b * q + r);
        assert(0 <= r < b);
        assert(q >= 0);
        let a1 = (a - 1) as int;
        if r == 0 {
            // a - 1 == b * (q - 1) + (b - 1)
            assert(b * (q - 1) == b * q - b) by {
                lemma_mul_is_distributive_sub(b as int, q, 1);
            }
            assert(q >= 1) by {
                if q == 0 {
                    assert(b * 0 == 0);
                }
            }
            assert(a1 == b as int * (q - 1) + (b - 1));
            assert(a1 / b as int == q - 1) by {
                lemma_div_multiples_vanish_fancy(q - 1, b as int - 1, b as int);
            }
            assert(ceil_div(a, b) == q);
            // q * b == a
            assert(q * b == b * q) by {
                lemma_mul_is_commutative(q, b as int);
            }
            // (q - 1) * b == a - b < a
            assert((q - 1) * b == q * b - b) by {
                lemma_mul_is_distributive_sub(b as int, q, 1);
                lemma_mul_is_commutative(q - 1, b as int);
                lemma_mul_is_commutative(q, b as int);
            }
            assert(ceil_div(a, b) <= a) by {
                lemma_div_nonincreasing(a as int, b as int);
            }
        } else {
            // a - 1 == b * q + (r - 1)
            assert(a1 == b as int * q + (r - 1));
            assert(a1 / b as int == q) by {
                lemma_div_multiples_vanish_fancy(q, r - 1, b as int);
            }
            assert(ceil_div(a, b) == q + 1);
            assert((q + 1) * b == q * b + b) by {
                lemma_mul_is_distributive_add(b as int, q, 1);
                lemma_mul_is_commutative(q + 1, b as int);
                lemma_mul_is_commutative(q, b as int);
            }
            assert(q * b == b * q) by {
                lemma_mul_is_commutative(q, b as int);
            }
            assert((q + 1) * b >= a);
            assert(q * b < a);
            assert(ceil_div(a, b) <= a) by {
                lemma_div_nonincreasing(a1, b as int);
            }
        }
    }
}

/// The exec form `(a + b - 1) / b` computes `ceil_div(a, b)`.
pub proof fn lemma_ceil_div_exec_form(a: nat, b: nat)
    requires
        b >= 1,
    ensures
        (a + b - 1) / (b as int) == ceil_div(a, b),
{
    if a == 0 {
        assert((b - 1) / (b as int) == 0) by {
            lemma_div_multiples_vanish_fancy(0, b as int - 1, b as int);
            assert(b as int * 0 == 0);
        }
    } else {
        let a1 = (a - 1) as int;
        assert(a + b - 1 == a1 + b);
        assert((a1 + b) / (b as int) == a1 / (b as int) + 1) by {
            lemma_div_plus_one(a1, b as int);
        }
    }
}

/// Scaling by a ratio of at least one does not shrink the total.
pub proof fn lemma_target_at_least_total(total: nat, num: nat, den: nat)
    requires
        den >= 1,
        num >= den,
    ensures
        overfetch_target(total, num, den) >= total,
{
    lemma_ceil_div_props(total * num, den);
    assert(total * den <= total * num) by {
        lemma_mul_inequality(den as int, num as int, total as int);
        lemma_mul_is_commutative(total as int, den as int);
        lemma_mul_is_commutative(total as int, num as int);
    }
    assert((total * den) as int / den as int == total) by {
        lemma_div_by_multiple(total as int, den as int);
    }
    assert((total * den) as int / den as int <= (total * num) as int / den as int) by {
        lemma_div_is_ordered((total * den) as int, (total * num) as int, den as int);
    }
    assert(ceil_div(total * num, den) >= (total * num) as int / den as int) by {
        lemma_ceil_div_props(total * num, den);
    }
}

/// The sum of the `count` fields of a plan.
pub open spec fn counts_sum(s: Seq<DeckUri>) -> int
    decreases s.len(),
{
    if s.len() == 0 {
        0
    } else {
        counts_sum(s.drop_last()) + s.last().count
    }
}


proof fn lemma_plan_sum_prefix(
    target: nat,
    page_size: nat,
    sort_by: Option<DeckSort>,
    category: Option<DeckCategory>,
    k: nat,
)
    requires
        1 <= page_size <= u32::MAX,
        k <= page_count(target, page_size),
    ensures
        counts_sum(planned_pages(target, page_size, sort_by, category).take(k as int)) == (
        if k < page_count(target, page_size) {
            (k * page_size) as int
        } else {
            target as int
        }),
    decreases k,
{
    let s = planned_pages(target, page_size, sort_by, category);
    let pc = page_count(target, page_size);
    lemma_ceil_div_props(target, page_size);
    if k == 0 {
        assert(s.take(0) =~= Seq::<DeckUri>::empty());
        assert(0nat * page_size == 0) by {
            lemma_mul_is_commutative(0, page_size as int);
        }
    } else {
        lemma_plan_sum_prefix(target, page_size, sort_by, category, (k - 1) as nat);
        assert(s.take(k as int).drop_last() =~= s.take(k as int - 1));
        assert(s.take(k as int).last() == planned_page((k - 1) as nat, target, page_size, sort_by, category));
        let c = page_request_count((k - 1) as nat, target, page_size);
        assert(c <= page_size) by {
            lemma_mod_division_less_than_divisor(target as int, page_size as int);
        }
        assert(s.take(k as int).last().count == c as u32);
        assert(counts_sum(s.take(k as int)) == counts_sum(s.take(k as int - 1)) + c);
        assert((k - 1) * page_size + page_size == k * page_size) by {
            lemma_mul_is_distributive_sub(page_size as int, k as int, 1);
            lemma_mul_is_commutative(page_size as int, k as int - 1);
            lemma_mul_is_commutative(page_size as int, k as int);
        }
        if k < pc {
            assert(c == page_size);
            assert(counts_sum(s.take(k as int)) == k * page_size);
        } else {
            // k == pc: the last page carries the remainder
            let q = target as int / page_size as int;
            let r = target as int % page_size as int;
            lemma_fundamental_div_mod(target as int, page_size as int);
            lemma_mod_division_less_than_divisor(target as int, page_size as int);
            assert(target == page_size * q + r);
            assert(q * page_size == page_size * q) by {
                lemma_mul_is_commutative(q, page_size as int);
            }
            if r == 0 {
                assert(pc == q);
                assert(c == page_size);
                assert(counts_sum(s.take(k as int)) == (q - 1) * page_size + page_size);
                assert((q - 1) * page_size + page_size == q * page_size) by {
                    lemma_mul_is_distributive_sub(page_size as int, q, 1);
                    lemma_mul_is_commutative(page_size as int, q - 1);
                    lemma_mul_is_commutative(page_size as int, q);
                }
            } else {
                assert(pc == q + 1);
                assert(c == r);
                assert(counts_sum(s.take(k as int)) == q * page_size + r);
            }
        }
    }
}

/// The planned pages together request exactly the overfetch target: no
/// page requests zero entities, and page `i` starts at offset
/// `i * page_size`.
pub proof fn lemma_plan_covers(
    target: nat,
    page_size: nat,
    sort_by: Option<DeckSort>,
    category: Option<DeckCategory>,
)
    requires
        1 <= page_size <= u32::MAX,
        target <= u32::MAX,
    ensures
        counts_sum(planned_pages(target, page_size, sort_by, category)) == target,
        forall|i: int|
            0 <= i < planned_pages(target, page_size, sort_by, category).len()
                ==> #[trigger] planned_pages(target, page_size, sort_by, category)[i].count >= 1,
        forall|i: int|
            0 <= i < planned_pages(target, page_size, sort_by, category).len()
                ==> #[trigger] planned_pages(
                target,
                page_size,
                sort_by,
                category,
            )[i].from == Some((i * page_size) as u32) && i * page_size <= u32::MAX,
        target > 0 ==> planned_pages(target, page_size, sort_by, category).len() >= 1,
{
    let s = planned_pages(target, page_size, sort_by, category);
    let pc = page_count(target, page_size);
    lemma_ceil_div_props(target, page_size);
    lemma_plan_sum_prefix(target, page_size, sort_by, category, pc);
    assert(s.take(pc as int) =~= s);
    assert forall|i: int| 0 <= i < s.len() implies #[trigger] s[i].count >= 1 by {
        lemma_mod_division_less_than_divisor(target as int, page_size as int);
        let c = page_request_count(i as nat, target, page_size);
        assert(c >= 1);
        assert(c <= page_size);
    }
    assert forall|i: int| 0 <= i < s.len() implies #[trigger] s[i].from == Some(
        (i * page_size) as u32,
    ) && i * page_size <= u32::MAX by {
        assert(i * page_size <= (pc - 1) * page_size) by {
            lemma_mul_inequality(i, pc as int - 1, page_size as int);
        }
        assert((pc - 1) * page_size < target);
    }
}

/// The overfetch is bounded: where the scaled-up target stays under
/// `total + page_size`, the plan requests at least `total` entities and
/// fewer than `total + page_size`.
pub proof fn lemma_plan_overfetch_bounded(
    total: nat,
    page_size: nat,
    num: nat,
    den: nat,
    sort_by: Option<DeckSort>,
    category: Option<DeckCategory>,
)
    requires
        1 <= page_size <= u32::MAX,
        den >= 1,
        num >= den,
        overfetch_target(total, num, den) <= u32::MAX,
        overfetch_target(total, num, den) < total + page_size,
    ensures
        counts_sum(
            planned_pages(overfetch_target(total, num, den), page_size, sort_by, category),
        ) >= total,
        counts_sum(
            planned_pages(overfetch_target(total, num, den), page_size, sort_by, category),
        ) < total + page_size,
{
    lemma_target_at_least_total(total, num, den);
    lemma_plan_covers(overfetch_target(total, num, den), page_size, sort_by, category);
}

/// Plan the page requests that cover `total_desired` entities. The target
/// is `total_desired` scaled up by the ratio `ratio_num / ratio_den`
/// (rounded up, at least one), split into pages of `page_size`; every page
/// requests a full `page_size` but the last, which requests the remainder,
/// or a full page when the remainder is zero.
pub fn plan_requests(
    total_desired: u32,
    page_size: u32,
    ratio_num: u32,
    ratio_den: u32,
    sort_by: Option<DeckSort>,
    category: Option<DeckCategory>,
) -> (r: Vec<DeckUri>)
    requires
        page_size >= 1,
        ratio_den >= 1,
        ratio_num >= ratio_den,
        overfetch_target(total_desired as nat, ratio_num as nat, ratio_den as nat) <= u32::MAX,
    ensures
        r@ == planned_pages(
            overfetch_target(total_desired as nat, ratio_num as nat, ratio_den as nat),
            page_size as nat,
            sort_by,
            category,
        ),
{
    let ghost gtarget = overfetch_target(total_desired as nat, ratio_num as nat, ratio_den as nat);
    proof {
        assert((total_desired as u64) * (ratio_num as u64) <= (u32::MAX as u64) * (u32::MAX
            as u64)) by {
            lemma_mul_upper_bound(
                total_desired as int,
                u32::MAX as int,
                ratio_num as int,
                u32::MAX as int,
            );
        }
        lemma_ceil_div_exec_form((total_desired * ratio_num) as nat, ratio_den as nat);
        lemma_ceil_div_props((total_desired * ratio_num) as nat, ratio_den as nat);
    }
    let tn: u64 = (total_desired as u64) * (ratio_num as u64);
    let target64: u64 = (tn + (ratio_den as u64) - 1) / (ratio_den as u64);
    assert(target64 == gtarget);
    let target: u32 = target64 as u32;
    proof {
        lemma_ceil_div_exec_form(target as nat, page_size as nat);
        lemma_ceil_div_props(target as nat, page_size as nat);
    }
    let num64: u64 = ((target as u64) + (page_size as u64) - 1) / (page_size as u64);
    assert(num64 == page_count(target as nat, page_size as nat));
    let num_requests: u32 = num64 as u32;
    let ghost pages = planned_pages(gtarget, page_size as nat, sort_by, category);

    let mut r: Vec<DeckUri> = Vec::new();
    let mut i: u32 = 0;
    while i < num_requests
        invariant
            i <= num_requests,
            num_requests == page_count(gtarget, page_size as nat),
            gtarget == target,
            target64 == gtarget,
            gtarget <= u32::MAX,
            1 <= page_size <= u32::MAX,
            pages == planned_pages(gtarget, page_size as nat, sort_by, category),
            r@.len() == i,
            forall|k: int| 0 <= k < i ==> r@[k] == pages[k],
        decreases num_requests - i,
    {
        proof {
            lemma_ceil_div_props(gtarget, page_size as nat);
            assert((i as int) * (page_size as int) <= (num_requests - 1) * (page_size as int)) by {
                lemma_mul_inequality(i as int, num_requests as int - 1, page_size as int);
            }
            assert((num_requests - 1) * (page_size as int) < gtarget);
        }
        let from: u32 = i * page_size;
        let count: u32 = if i < num_requests - 1 {
            page_size
        } else {
            let rem = target % page_size;
            if rem == 0 {
                page_size
            } else {
                rem
            }
        };
        assert(count == page_request_count(i as nat, gtarget, page_size as nat) as u32);
        r.push(DeckUri { sort_by, from: Some(from), count, category });
        i = i + 1;
    }
    proof {
        assert(r@ =~= pages);
    }
    r
}

} // verus!
