use crate::utils::{
    chain_ordering, chain_ordering_spec, cmp_str, dec_str, lemma_dec_str_len, lex_cmp_chars,
    u32_to_string,
};
use core::cmp::Ordering;
use vstd::prelude::*;
use vstd::string::StringExecFns;

verus! {

/// A deck record of the remote library. Identity and order are given by
/// the composite key `(uid, deck_code)`; the other fields are payload.
#[derive(Debug, Clone)]
pub struct Deck {
    pub uid: String,
    pub deck_code: String,
    pub title: String,
    pub description: String,
    pub rating: i32,
    pub mode: String,
    pub playstyle: String,
    pub created_at_ms: i64,
    pub changed_at_ms: i64,
    pub is_private: bool,
    pub is_draft: bool,
    pub is_riot: bool,
}

/// Order decks by `uid` first, breaking ties by `deck_code`.
pub open spec fn deck_cmp_spec(a: Deck, b: Deck) -> Ordering {
    chain_ordering_spec(lex_cmp_chars(a.uid@, b.uid@), lex_cmp_chars(a.deck_code@, b.deck_code@))
}

/// Two decks are the same entity when their composite keys agree.
pub open spec fn deck_key_eq(a: Deck, b: Deck) -> bool {
    a.uid@ == b.uid@ && a.deck_code@ == b.deck_code@
}

impl PartialEq for Deck {
    fn eq(&self, other: &Self) -> (r: bool) {
        (self.uid == other.uid) && (self.deck_code == other.deck_code)
    }
}

impl Eq for Deck {}

impl vstd::std_specs::cmp::PartialEqSpecImpl for Deck {
    open spec fn obeys_eq_spec() -> bool {
        true
    }

    open spec fn eq_spec(&self, other: &Deck) -> bool {
        deck_key_eq(*self, *other)
    }
}

impl PartialOrd for Deck {
    fn partial_cmp(&self, other: &Self) -> (r: Option<Ordering>) {
        Some(self.cmp(other))
    }
}

impl vstd::std_specs::cmp::PartialOrdSpecImpl for Deck {
    open spec fn obeys_partial_cmp_spec() -> bool {
        true
    }

    open spec fn partial_cmp_spec(&self, other: &Deck) -> Option<Ordering> {
        Some(deck_cmp_spec(*self, *other))
    }
}

impl Deck {
    pub fn deck_code(&self) -> (r: String)
        ensures
            r@ == self.deck_code@,
    {
        self.deck_code.clone()
    }

    /// Compare by the composite key: `uid` first, then `deck_code`.
    pub fn cmp(&self, other: &Deck) -> (r: Ordering)
        ensures
            r == deck_cmp_spec(*self, *other),
    {
        chain_ordering(
            cmp_str(self.uid.as_str(), other.uid.as_str()),
            cmp_str(self.deck_code.as_str(), other.deck_code.as_str()),
        )
    }

    /// The cards of this deck, decoded from its deck code; `None` where
    /// the code is rejected or names a faction the library does not know.
    pub fn get_deck_cards(&self) -> (r: Option<Vec<Card>>)
        ensures
            deck_cards_ensures(*self, r),
    {
        Card::from_deck(self)
    }
}

/// One page of the remote deck library: the decoded payload of one
/// page request.
#[derive(Debug, Clone)]
pub struct DeckData {
    pub has_next: bool,
    pub decks: Vec<Deck>,
}

impl Default for DeckData {
    fn default() -> (r: Self)
        ensures
            r.has_next == false,
            r.decks@ == Seq::<Deck>::empty(),
    {
        DeckData { has_next: false, decks: Vec::new() }
    }
}

impl DeckData {
    /// Consumes self and return decks
    pub fn decks(self) -> (r: Vec<Deck>)
        ensures
            r == self.decks,
    {
        self.decks
    }
}

/// One card of a deck, as derived from the deck's code: the deck code it
/// came from, the card's printable code, and the decoded fields.
#[derive(Debug, Clone)]
pub struct Card {
    pub deck_code: String,
    pub code: String,
    pub set: u32,
    pub faction: u32,
    pub number: u32,
    pub count: i32,
}

/// The numeric faction identifiers the library knows a two-letter code for.
pub open spec fn faction_known(f: u32) -> bool {
    f <= 6 || f == 9
}

pub open spec fn faction_chars(f: u32) -> Seq<char> {
    if f == 0 {
        "DE"@
    } else if f == 1 {
        "FR"@
    } else if f == 2 {
        "IO"@
    } else if f == 3 {
        "NX"@
    } else if f == 4 {
        "PZ"@
    } else if f == 5 {
        "SI"@
    } else if f == 6 {
        "BW"@
    } else {
        "MT"@
    }
}

/// The two-letter code of a numeric faction identifier, for the factions
/// the library knows.
pub fn faction_code(f: u32) -> (r: Option<&'static str>)
    ensures
        r is Some <==> faction_known(f),
        r is Some ==> r->0@ == faction_chars(f),
{
    if f == 0 {
        Some("DE")
    } else if f == 1 {
        Some("FR")
    } else if f == 2 {
        Some("IO")
    } else if f == 3 {
        Some("NX")
    } else if f == 4 {
        Some("PZ")
    } else if f == 5 {
        Some("SI")
    } else if f == 6 {
        Some("BW")
    } else if f == 9 {
        Some("MT")
    } else {
        None
    }
}

/// `s` left-padded with `'0'` up to width `w`.
pub open spec fn zero_pad(s: Seq<char>, w: nat) -> Seq<char> {
    if s.len() >= w {
        s
    } else {
        Seq::new((w - s.len()) as nat, |i: int| '0') + s
    }
}

/// The printable code of a card: the set zero-padded to two digits, the
/// faction code, the card number zero-padded to three digits.
pub open spec fn card_code_chars(set: u32, faction: u32, number: u32) -> Seq<char> {
    zero_pad(dec_str(set as nat), 2) + faction_chars(faction) + zero_pad(dec_str(number as nat), 3)
}

fn pad2(n: u32) -> (s: String)
    ensures
        s@ == zero_pad(dec_str(n as nat), 2),
{
    proof {
        lemma_dec_str_len(n as nat);
    }
    let mut s = String::new();
    if n < 10 {
        s.append("0");
        proof {
            reveal_strlit("0");
        }
    }
    let d = u32_to_string(n);
    s.append(d.as_str());
    proof {
        assert(s@ =~= zero_pad(dec_str(n as nat), 2));
    }
    s
}

fn pad3(n: u32) -> (s: String)
    ensures
        s@ == zero_pad(dec_str(n as nat), 3),
{
    proof {
        lemma_dec_str_len(n as nat);
    }
    let mut s = String::new();
    if n < 10 {
        s.append("00");
        proof {
            reveal_strlit("00");
        }
    } else if n < 100 {
        s.append("0");
        proof {
            reveal_strlit("0");
        }
    }
    let d = u32_to_string(n);
    s.append(d.as_str());
    proof {
        assert(s@ =~= zero_pad(dec_str(n as nat), 3));
    }
    s
}

fn format_card_code(set: u32, faction: &str, number: u32) -> (s: String)
    ensures
        s@ == zero_pad(dec_str(set as nat), 2) + faction@ + zero_pad(dec_str(number as nat), 3),
{
    let mut s = pad2(set);
    s.append(faction);
    let tail = pad3(number);
    s.append(tail.as_str());
    proof {
        assert(s@ =~= zero_pad(dec_str(set as nat), 2) + faction@ + zero_pad(
            dec_str(number as nat),
            3,
        ));
    }
    s
}

/// What a deck code's characters decode to as base32: `None` where the
/// string is not well-formed base32 without padding.
pub uninterp spec fn base32_bytes(code: Seq<char>) -> Option<Seq<u8>>;

/// Relies on data_encoding::BASE32_NOPAD.decode: RFC 4648 base32 without
/// padding, a pure function of the string that returns the decoded bytes
/// or a decode error, never panicking, whatever the input.
#[verifier::external_body]
fn decode_base32(code: &str) -> (r: Option<Vec<u8>>)
    ensures
        (match r {
            Some(v) => base32_bytes(code@) == Some(v@),
            None => base32_bytes(code@) is None,
        }),
{
    data_encoding::BASE32_NOPAD.decode(code.as_bytes()).ok()
}

/// Five consecutive continuation bytes start at `i`.
pub open spec fn high_run_at(bytes: Seq<u8>, i: int) -> bool {
    forall|j: int| i <= j < i + 5 ==> (#[trigger] bytes[j]) >= 128
}

/// Every variable-width integer in the byte stream terminates within five
/// bytes: past the leading format byte, no five consecutive bytes all
/// carry the continuation bit.
pub open spec fn varints_bounded(bytes: Seq<u8>) -> bool {
    forall|i: int| 1 <= i && i + 5 <= bytes.len() ==> !(#[trigger] high_run_at(bytes, i))
}

/// The deck code may be handed to the decoder: either it is not base32 at
/// all (the decoder rejects that itself), or every variable-width integer
/// in its byte stream terminates in bounds. The decoder would shift past
/// the width of its integers on a sixth continuation byte, so such streams
/// are kept away from it.
pub open spec fn deck_code_bounded(code: Seq<char>) -> bool {
    match base32_bytes(code) {
        Some(bytes) => varints_bounded(bytes),
        None => true,
    }
}

/// Scan the decoded code for a variable-width integer that does not
/// terminate within five bytes.
fn check_varints_bounded(bytes: &Vec<u8>) -> (b: bool)
    ensures
        b == varints_bounded(bytes@),
{
    if bytes.len() < 6 {
        return true;
    }
    let mut run: usize = 0;
    let mut i: usize = 1;
    while i < bytes.len()
        invariant
            1 <= i <= bytes@.len(),
            run < 5,
            run <= i - 1,
            forall|j: int| i - run <= j < i ==> (#[trigger] bytes@[j]) >= 128,
            i - run - 1 >= 1 ==> bytes@[i - run - 1] < 128,
            forall|k: int| 1 <= k && k + 5 <= i ==> !(#[trigger] high_run_at(bytes@, k)),
        decreases bytes@.len() - i,
    {
        let b = bytes[i];
        if b >= 128 {
            if run == 4 {
                proof {
                    assert(high_run_at(bytes@, i as int - 4)) by {
                        assert forall|j: int| i - 4 <= j < i - 4 + 5 implies (#[trigger] bytes@[j])
                            >= 128 by {
                            if j < i {
                            } else {
                                assert(j == i);
                            }
                        }
                    }
                    assert(!varints_bounded(bytes@));
                }
                return false;
            }
            run = run + 1;
        } else {
            run = 0;
        }
        i = i + 1;
        proof {
            assert forall|k: int| 1 <= k && k + 5 <= i implies !(#[trigger] high_run_at(
                bytes@,
                k,
            )) by {
                if k + 5 == i {
                    // the window ends at the byte just processed
                    if bytes@[i - 1] < 128 {
                        assert(!high_run_at(bytes@, k));
                    } else {
                        // the run ending here is shorter than the window
                        assert(bytes@[i - run - 1] < 128);
                        assert(k <= i - run - 1 < k + 5);
                        assert(!high_run_at(bytes@, k));
                    }
                }
            }
        }
    }
    true
}

/// What `lordeckcodes` decodes a deck code to: `None` where the code is
/// rejected, otherwise one `(set, faction, number, count)` entry per card.
pub uninterp spec fn decoded_cards(code: Seq<char>) -> Option<Seq<(u32, u32, u32, i32)>>;

/// Relies on lordeckcodes::encoder::deck_from_code: decoding is a pure
/// function of the code string alone; the entries copy each decoded
/// card's fields. The decoder reads its fields as variable-width
/// integers and would shift past their width on a sixth continuation
/// byte, so only codes whose byte stream keeps every such integer in
/// bounds are handed to it; on those it returns its cards or an error.
#[verifier::external_body]
fn decode_deck_code(code: &str) -> (r: Option<Vec<(u32, u32, u32, i32)>>)
    requires
        deck_code_bounded(code@),
    ensures
        (match r {
            Some(v) => decoded_cards(code@) == Some(v@),
            None => decoded_cards(code@) is None,
        }),
{
    match lordeckcodes::encoder::deck_from_code(code) {
        Ok(deck) => Some(
            deck.cards().iter().map(
                |c| (c.card().set(), c.card().faction(), c.card().number(), c.count()),
            ).collect(),
        ),
        Err(_) => None,
    }
}

/// `c` is the card that entry `e`, decoded from `code`, stands for.
pub open spec fn card_matches_entry(c: Card, code: Seq<char>, e: (u32, u32, u32, i32)) -> bool {
    &&& c.deck_code@ == code
    &&& c.code@ == card_code_chars(e.0, e.1, e.2)
    &&& c.set == e.0
    &&& c.faction == e.1
    &&& c.number == e.2
    &&& c.count == e.3
}

pub open spec fn all_factions_known(entries: Seq<(u32, u32, u32, i32)>) -> bool {
    forall|i: int| 0 <= i < entries.len() ==> #[trigger] faction_known(entries[i].1)
}

/// What decoding owes: one card per decoded entry when the code's byte
/// stream is in bounds, the code is accepted, and every faction is known;
/// nothing otherwise.
pub open spec fn deck_cards_ensures(deck: Deck, r: Option<Vec<Card>>) -> bool {
    if !deck_code_bounded(deck.deck_code@) {
        r is None
    } else {
        deck_cards_decoded_ensures(deck, r)
    }
}

/// The decoded half of what decoding owes.
pub open spec fn deck_cards_decoded_ensures(deck: Deck, r: Option<Vec<Card>>) -> bool {
    match decoded_cards(deck.deck_code@) {
        None => r is None,
        Some(entries) => {
            if all_factions_known(entries) {
                &&& r is Some
                &&& r->0@.len() == entries.len()
                &&& (forall|i: int|
                    0 <= i < entries.len() ==> card_matches_entry(
                        #[trigger] r->0@[i],
                        deck.deck_code@,
                        entries[i],
                    ))
            } else {
                r is None
            }
        },
    }
}

impl Card {
    /// The cards of a deck, decoded from its deck code; `None` where the
    /// code is rejected or names a faction the library does not know.
    pub fn from_deck(deck: &Deck) -> (r: Option<Vec<Card>>)
        ensures
            deck_cards_ensures(*deck, r),
    {
        let bounded = match decode_base32(deck.deck_code.as_str()) {
            Some(bytes) => check_varints_bounded(&bytes),
            None => true,
        };
        if !bounded {
            return None;
        }
        let entries = match decode_deck_code(deck.deck_code.as_str()) {
            Some(e) => e,
            None => {
                return None;
            },
        };
        let mut cards: Vec<Card> = Vec::new();
        let mut i: usize = 0;
        while i < entries.len()
            invariant
                i <= entries.len(),
                decoded_cards(deck.deck_code@) == Some(entries@),
                cards@.len() == i,
                forall|k: int|
                    0 <= k < i ==> card_matches_entry(
                        #[trigger] cards@[k],
                        deck.deck_code@,
                        entries@[k],
                    ),
                forall|k: int| 0 <= k < i ==> #[trigger] faction_known(entries@[k].1),
            decreases entries.len() - i,
        {
            let e = entries[i];
            let faction = match faction_code(e.1) {
                Some(f) => f,
                None => {
                    assert(!faction_known(entries@[i as int].1));
                    return None;
                },
            };
            let code = format_card_code(e.0, faction, e.2);
            cards.push(
                Card {
                    deck_code: deck.deck_code.clone(),
                    code,
                    set: e.0,
                    faction: e.1,
                    number: e.2,
                    count: e.3,
                },
            );
            i = i + 1;
        }
        Some(cards)
    }
}

} // verus!
