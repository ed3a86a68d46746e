//! Bearer and `x-api-key` authentication.
//!
//! Off while no keys are configured. `/health` and `/` are always reachable without a
//! key, so that a load balancer can probe liveness and a browser can load the chat page;
//! every other path requires one. Either header style is accepted, and a WebSocket, whose
//! browser constructor cannot set headers, may present its key as a subprotocol.

use crate::text;
use crate::text::{chars_of, matches_at, same_text, text_of, trim};
use vstd::prelude::*;
use vstd::slice::slice_subrange;
use vstd::string::*;

verus! {

/// `constant_time_eq`: whether two byte strings are equal. How long it takes, which is
/// what the function is for, is not stated.
pub assume_specification[ constant_time_eq::constant_time_eq ](a: &[u8], b: &[u8]) -> (r: bool)
    ensures
        r == (a@ == b@),
;

/// Two texts with the same bytes are the same text.
proof fn bytes_tell_texts_apart(a: Seq<char>, b: Seq<char>)
    requires
        vstd::utf8::encode_utf8(a) == vstd::utf8::encode_utf8(b),
    ensures
        a == b,
{
    vstd::utf8::encode_utf8_decode_utf8(a);
    vstd::utf8::encode_utf8_decode_utf8(b);
}

/// The configured keys.
#[derive(Debug)]
pub struct ApiKeys(Vec<String>);

impl View for ApiKeys {
    type V = Seq<Seq<char>>;

    closed spec fn view(&self) -> Seq<Seq<char>> {
        self.0@.map_values(|k: String| k@)
    }
}

impl ApiKeys {
    pub fn new(keys: Vec<String>) -> (k: Self)
        ensures
            k@ == keys@.map_values(|k: String| k@),
    {
        ApiKeys(keys)
    }

    /// False while no keys are configured: authentication is off.
    pub fn is_enabled(&self) -> (b: bool)
        ensures
            b == (self@.len() > 0),
    {
        self.0.len() > 0
    }

    /// Whether `presented` is one of the keys, each compared in constant time.
    pub fn accepts(&self, presented: &str) -> (b: bool)
        ensures
            b == self@.contains(presented@),
    {
        let mut i: usize = 0;
        while i < self.0.len()
            invariant
                i <= self.0@.len(),
                forall|j: int| 0 <= j < i ==> #[trigger] self@[j] != presented@,
            decreases self.0@.len() - i,
        {
            let key = self.0[i].as_str();
            assert(self@[i as int] == key@);
            if constant_time_eq::constant_time_eq(key.as_bytes(), presented.as_bytes()) {
                proof {
                    bytes_tell_texts_apart(key@, presented@);
                }
                return true;
            }
            i += 1;
        }
        false
    }
}

/// Paths that need no key.
pub open spec fn is_exempt(path: Seq<char>) -> bool {
    path == "/health"@ || path == "/"@
}

/// What follows `head` in `s`, if `s` begins with it.
pub open spec fn after(head: Seq<char>, s: Seq<char>) -> Option<Seq<char>> {
    if text::stands_at(s, 0, head) {
        Some(s.skip(head.len() as int))
    } else {
        None
    }
}

fn strip(head: &str, s: &str) -> (r: Option<String>)
    ensures
        match r {
            Some(t) => after(head@, s@) == Some(t@),
            None => after(head@, s@) is None,
        },
{
    let h = chars_of(head);
    let cs = chars_of(s);
    if matches_at(cs.as_slice(), 0, h.as_slice()) {
        let rest = slice_subrange(cs.as_slice(), h.len(), cs.len());
        assert(rest@ =~= s@.skip(head@.len() as int));
        Some(text_of(rest))
    } else {
        None
    }
}

/// Where the entry of a comma-separated list that starts at `from` ends.
pub open spec fn entry_end(list: Seq<char>, from: int) -> int
    decreases list.len() - from,
{
    if from < 0 || from >= list.len() || list[from] == ',' {
        from
    } else {
        entry_end(list, from + 1)
    }
}

/// The key that the entries from `from` on carry: that of the first entry that names the
/// key scheme.
pub open spec fn offered(list: Seq<char>, from: int) -> Option<Seq<char>>
    decreases list.len() - from,
{
    let end = entry_end(list, from);
    if from < 0 || from > list.len() || end < from {
        None
    } else if let Some(key) = after("garuda.api-key."@, text::trimmed(list.subrange(from, end))) {
        Some(key)
    } else if end < list.len() {
        offered(list, end + 1)
    } else {
        None
    }
}

/// The key among offered subprotocols, `garuda.api-key.` and the key itself.
fn subprotocol_key(list: &str) -> (r: Option<String>)
    ensures
        match r {
            Some(k) => offered(list@, 0) == Some(k@),
            None => offered(list@, 0) is None,
        },
{
    let cs = chars_of(list);
    let mut from: usize = 0;
    let mut more = true;
    while more
        invariant
            cs@ == list@,
            from <= cs@.len(),
            offered(list@, 0) == if more {
                offered(list@, from as int)
            } else {
                None
            },
        decreases cs@.len() - from + more as int,
    {
        let mut end: usize = from;
        while end < cs.len() && cs[end] != ','
            invariant
                cs@ == list@,
                from <= end <= cs@.len(),
                entry_end(list@, from as int) == entry_end(list@, end as int),
            decreases cs@.len() - end,
        {
            end += 1;
        }
        let entry = trim(text_of(slice_subrange(cs.as_slice(), from, end)).as_str());
        match strip("garuda.api-key.", entry.as_str()) {
            Some(key) => {
                return Some(key);
            },
            None => {},
        }
        if end < cs.len() {
            from = end + 1;
        } else {
            more = false;
        }
    }
    None
}

/// The key that a request presents.
pub open spec fn presented(
    authorization: Option<Seq<char>>,
    x_api_key: Option<Seq<char>>,
    subprotocols: Option<Seq<char>>,
) -> Option<Seq<char>> {
    let bearer = match authorization {
        Some(v) => after("Bearer "@, v),
        None => None,
    };
    let key = if bearer is Some {
        bearer
    } else if x_api_key is Some {
        x_api_key
    } else {
        match subprotocols {
            Some(list) => offered(list, 0),
            None => None,
        }
    };
    match key {
        Some(k) => if k.len() == 0 {
            None
        } else {
            Some(k)
        },
        None => None,
    }
}

pub open spec fn shown(s: Option<&str>) -> Option<Seq<char>> {
    match s {
        Some(t) => Some(t@),
        None => None,
    }
}

/// The key that a request presents: after `Bearer ` in its `Authorization` header, in its
/// `x-api-key` header, or among its WebSocket subprotocols. An empty key is none.
pub fn presented_key(
    authorization: Option<&str>,
    x_api_key: Option<&str>,
    subprotocols: Option<&str>,
) -> (r: Option<String>)
    ensures
        match r {
            Some(k) => presented(shown(authorization), shown(x_api_key), shown(subprotocols))
                == Some(k@),
            None => presented(shown(authorization), shown(x_api_key), shown(subprotocols)) is None,
        },
        r matches Some(k) ==> k@.len() > 0,
        authorization matches Some(v) ==> forall|key: Seq<char>|
            v@ == #[trigger] ("Bearer "@ + key) && key.len() > 0 ==> r is Some && r->Some_0@ == key,
        authorization is None ==> (x_api_key matches Some(k) ==> (k@.len() > 0 ==> r is Some
            && r->Some_0@ == k@)),
        authorization is None && x_api_key is None && subprotocols is None ==> r is None,
{
    let bearer = match authorization {
        Some(v) => strip("Bearer ", v),
        None => None,
    };
    proof {
        if let Some(v) = authorization {
            assert forall|key: Seq<char>| v@ == #[trigger] ("Bearer "@ + key) implies after(
                "Bearer "@,
                v@,
            ) == Some(key) by {
                what_follows_a_head("Bearer "@, v@, key);
            }
        }
    }
    let key = match bearer {
        Some(k) => Some(k),
        None => match x_api_key {
            Some(k) => Some(k.to_owned()),
            None => match subprotocols {
                Some(list) => subprotocol_key(list),
                None => None,
            },
        },
    };
    match key {
        Some(k) => {
            let cs = chars_of(k.as_str());
            if cs.len() == 0 {
                None
            } else {
                Some(k)
            }
        },
        None => None,
    }
}

/// Whether a request for `path` that presents `key` goes through.
pub open spec fn admits(keys: Seq<Seq<char>>, path: Seq<char>, key: Option<Seq<char>>) -> bool {
    keys.len() == 0 || is_exempt(path) || (key matches Some(k) && keys.contains(k))
}

/// What an unauthorised request is told.
pub const UNAUTHORIZED_MESSAGE: &'static str = "invalid or missing API key";

/// Whether a request for `path` that presents `key` goes through. One that does not is
/// unauthorised.
pub fn require_key(keys: &ApiKeys, path: &str, key: Option<&str>) -> (b: bool)
    ensures
        b == admits(keys@, path@, shown(key)),
        b <==> keys@.len() == 0 || path@ == "/health"@ || path@ == "/"@ || (key is Some
            && keys@.contains(key->Some_0@)),
{
    if !keys.is_enabled() || same_text(path, "/health") || same_text(path, "/") {
        return true;
    }
    match key {
        Some(k) => keys.accepts(k),
        None => false,
    }
}

/// What follows a head is what completes it: a text begins with `head` and goes on with
/// `rest` exactly where it is the one and then the other.
pub proof fn what_follows_a_head(head: Seq<char>, s: Seq<char>, rest: Seq<char>)
    ensures
        after(head, s) == Some(rest) <==> s == head + rest,
{
    if s == head + rest {
        assert(s.skip(head.len() as int) =~= rest);
        assert(s.subrange(0, head.len() as int) =~= head);
    }
    if after(head, s) == Some(rest) {
        assert(s =~= head + rest);
    }
}

proof fn entries_end_at_a_comma(list: Seq<char>, from: int)
    requires
        0 <= from <= list.len(),
    ensures
        from <= entry_end(list, from) <= list.len(),
        entry_end(list, from) < list.len() ==> list[entry_end(list, from)] == ',',
        forall|i: int| from <= i < entry_end(list, from) ==> #[trigger] list[i] != ',',
    decreases list.len() - from,
{
    if from < list.len() && list[from] != ',' {
        entries_end_at_a_comma(list, from + 1);
    }
}

/// A key among subprotocols is one of the entries, between commas: what follows the name of
/// the scheme, with the white space around the entry taken off.
pub proof fn offered_keys_are_entries(list: Seq<char>, from: int)
    requires
        0 <= from <= list.len(),
    ensures
        offered(list, from) matches Some(key) ==> exists|a: int, b: int|
            from <= a <= b <= list.len() && (a == from || list[a - 1] == ',') && (b == list.len()
                || list[b] == ',') && #[trigger] text::trimmed(list.subrange(a, b))
                == "garuda.api-key."@ + key,
    decreases list.len() - from,
{
    let end = entry_end(list, from);
    entries_end_at_a_comma(list, from);
    let entry = text::trimmed(list.subrange(from, end));
    if let Some(key) = after("garuda.api-key."@, entry) {
        what_follows_a_head("garuda.api-key."@, entry, key);
        assert(text::trimmed(list.subrange(from, end)) == "garuda.api-key."@ + key);
    } else if end < list.len() {
        offered_keys_are_entries(list, end + 1);
        if let Some(key) = offered(list, end + 1) {
            let (a, b) = choose|a: int, b: int|
                end + 1 <= a <= b <= list.len() && (a == end + 1 || list[a - 1] == ',') && (b
                    == list.len() || list[b] == ',') && #[trigger] text::trimmed(
                    list.subrange(a, b),
                ) == "garuda.api-key."@ + key;
            assert(from <= a);
        }
    }
}

/// A list of one entry that names the scheme offers its key; one whose first entry does not
/// offers what the rest of it offers.
pub proof fn entries_are_asked_in_order(list: Seq<char>, comma: int)
    requires
        0 <= comma <= list.len(),
        forall|i: int| 0 <= i < comma ==> #[trigger] list[i] != ',',
        comma < list.len() ==> list[comma] == ',',
    ensures
        after("garuda.api-key."@, text::trimmed(list.take(comma))) is Some ==> offered(list, 0)
            == after("garuda.api-key."@, text::trimmed(list.take(comma))),
        after("garuda.api-key."@, text::trimmed(list.take(comma))) is None && comma < list.len()
            ==> offered(list, 0) == offered(list, comma + 1),
        after("garuda.api-key."@, text::trimmed(list.take(comma))) is None && comma == list.len()
            ==> offered(list, 0) is None,
{
    entries_end_at_a_comma(list, 0);
    let end = entry_end(list, 0);
    if end < comma {
        assert(list[end] != ',');
    }
    if comma < end {
        assert(list[comma] != ',');
    }
    assert(list.subrange(0, end) =~= list.take(comma));
}

/// The `Authorization` header is asked before `x-api-key`, and that before the subprotocols;
/// an empty key is none.
pub proof fn headers_are_asked_in_order(
    key: Seq<char>,
    x_api_key: Option<Seq<char>>,
    subprotocols: Option<Seq<char>>,
)
    requires
        key.len() > 0,
    ensures
        presented(Some("Bearer "@ + key), x_api_key, subprotocols) == Some(key),
        presented(None, Some(key), subprotocols) == Some(key),
        presented(None, None, subprotocols) matches Some(k) ==> subprotocols matches Some(list)
            && offered(list, 0) == Some(k),
        presented(Some("Bearer "@), x_api_key, subprotocols) is None,
        presented(None, Some(Seq::empty()), subprotocols) is None,
        presented(None, None, None) is None,
{
    what_follows_a_head("Bearer "@, "Bearer "@ + key, key);
    what_follows_a_head("Bearer "@, "Bearer "@, Seq::empty());
    assert("Bearer "@ =~= "Bearer "@ + Seq::<char>::empty());
}

/// While keys are configured, a request for a path that needs one goes through only with
/// one of them, and an empty header opens nothing, not even where the empty text is a
/// configured key.
pub proof fn no_key_no_entry(
    keys: Seq<Seq<char>>,
    path: Seq<char>,
    authorization: Option<Seq<char>>,
    x_api_key: Option<Seq<char>>,
    subprotocols: Option<Seq<char>>,
)
    requires
        keys.len() > 0,
        !is_exempt(path),
        admits(keys, path, presented(authorization, x_api_key, subprotocols)),
    ensures
        presented(authorization, x_api_key, subprotocols) matches Some(k) && k.len() > 0
            && keys.contains(k),
{
}

} // verus!
