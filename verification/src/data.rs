//! Request data: the parameter and cookie multimaps a CGI request layer
//! fills from the query string, cookies and POST body, with the
//! percent-decoding, base64 and path helpers around them.

use vstd::prelude::*;
use crate::strutil::{string_from_utf8_lossy, lossy_decode, str_eq};

verus! {

/// A hexadecimal digit, upper or lower case.
pub open spec fn is_hex_digit(c: char) -> bool {
    ('0' <= c && c <= '9') || ('a' <= c && c <= 'f') || ('A' <= c && c <= 'F')
}

/// Numeric value of a hexadecimal digit.
pub open spec fn hex_val(c: char) -> u8
    recommends
        is_hex_digit(c),
{
    if '0' <= c && c <= '9' {
        (c as u32 - 48) as u8
    } else if 'a' <= c && c <= 'f' {
        (c as u32 - 87) as u8
    } else if 'A' <= c && c <= 'F' {
        (c as u32 - 55) as u8
    } else {
        0
    }
}

/// Every character read after a `%` is a hexadecimal digit.  The
/// component may end inside an escape — a trailing `%` or `%h` is simply
/// dropped by the decoder — but a non-digit where a digit is read would
/// make decoding fail.
pub open spec fn valid_pct(s: Seq<char>) -> bool
    decreases s.len(),
{
    if s.len() == 0 {
        true
    } else if s[0] == '%' {
        if s.len() == 1 {
            true
        } else if s.len() == 2 {
            is_hex_digit(s[1])
        } else {
            is_hex_digit(s[1]) && is_hex_digit(s[2]) && valid_pct(s.skip(3))
        }
    } else {
        valid_pct(s.skip(1))
    }
}

/// The bytes a percent-encoded component decodes to: `%xy` to one byte,
/// `+` to a space, an ASCII character to itself, anything else to `?`.
/// A `%` cut short by the end of the component is dropped.
pub open spec fn pct_decode(s: Seq<char>) -> Seq<u8>
    decreases s.len(),
{
    if s.len() == 0 {
        Seq::empty()
    } else if s[0] == '%' {
        if s.len() >= 3 {
            seq![(16 * hex_val(s[1]) + hex_val(s[2])) as u8] + pct_decode(s.skip(3))
        } else {
            Seq::empty()
        }
    } else if s[0] == '+' {
        seq![32u8] + pct_decode(s.skip(1))
    } else {
        seq![(if (s[0] as u32) < 128 {
            (s[0] as u32) as u8
        } else {
            63u8
        })] + pct_decode(s.skip(1))
    }
}

/// Value of a hexadecimal digit character.
fn hex_val_exec(c: char) -> (r: u8)
    requires
        is_hex_digit(c),
    ensures
        r == hex_val(c),
{
    if '0' <= c && c <= '9' {
        ((c as u32) - 48) as u8
    } else if 'a' <= c && c <= 'f' {
        ((c as u32) - 87) as u8
    } else {
        ((c as u32) - 55) as u8
    }
}

/// Whether a component can be handed to [`WebData::url_comp_decode`]:
/// every `%` is followed by two hexadecimal digits.
pub fn is_valid_pct(s: &str) -> (r: bool)
    ensures
        r == valid_pct(s@),
{
    let n = s.unicode_len();
    let mut i: usize = 0;
    proof {
        assert(s@.skip(0) =~= s@);
    }
    loop
        invariant
            0 <= i <= n,
            n == s@.len(),
            valid_pct(s@) == valid_pct(s@.skip(i as int)),
        decreases n - i,
    {
        if i == n {
            return true;
        }
        let c = s.get_char(i);
        assert(c == s@.skip(i as int)[0]);
        if c == '%' {
            if n - i == 1 {
                assert(s@.skip(i as int).len() == 1);
                return true;
            }
            let c1 = s.get_char(i + 1);
            assert(c1 == s@.skip(i as int)[1]);
            let h1 = ('0' <= c1 && c1 <= '9') || ('a' <= c1 && c1 <= 'f') || ('A' <= c1 && c1
                <= 'F');
            if !h1 {
                return false;
            }
            if n - i == 2 {
                assert(s@.skip(i as int).len() == 2);
                return true;
            }
            let c2 = s.get_char(i + 2);
            assert(c2 == s@.skip(i as int)[2]);
            let h2 = ('0' <= c2 && c2 <= '9') || ('a' <= c2 && c2 <= 'f') || ('A' <= c2 && c2
                <= 'F');
            if !h2 {
                return false;
            }
            proof {
                assert(s@.skip(i as int).skip(3) =~= s@.skip(i as int + 3));
            }
            i = i + 3;
        } else {
            proof {
                assert(s@.skip(i as int).skip(1) =~= s@.skip(i as int + 1));
            }
            i = i + 1;
        }
    }
}

/// The request's decoded parameters and cookies: a key-to-values multimap
/// in insertion order, filled by the request layer from the query string,
/// an urlencoded POST body, or decoded multipart parts.
pub struct WebData {
    params: Vec<(String, Vec<String>)>,
    cookies: Vec<(String, String)>,
    /// The raw query string, when the request layer keeps it around.
    pub query: Option<String>,
}

/// First entry with the given key, if any.
pub open spec fn find_entry(entries: Seq<(Seq<char>, Seq<Seq<char>>)>, key: Seq<char>) -> Option<
    int,
>
    decreases entries.len(),
{
    if entries.len() == 0 {
        None
    } else if entries[0].0 == key {
        Some(0)
    } else {
        match find_entry(entries.skip(1), key) {
            Some(i) => Some(i + 1),
            None => None,
        }
    }
}

/// What [`find_entry`] returns, characterised without recursion.
pub proof fn lemma_find_entry(entries: Seq<(Seq<char>, Seq<Seq<char>>)>, key: Seq<char>)
    ensures
        match find_entry(entries, key) {
            Some(i) => 0 <= i < entries.len() && entries[i].0 == key && forall|j: int|
                0 <= j < i ==> entries[j].0 != key,
            None => forall|j: int| 0 <= j < entries.len() ==> entries[j].0 != key,
        },
    decreases entries.len(),
{
    if entries.len() > 0 && entries[0].0 != key {
        lemma_find_entry(entries.skip(1), key);
        match find_entry(entries.skip(1), key) {
            Some(i) => {
                assert forall|j: int| 0 <= j < i + 1 implies entries[j].0 != key by {
                    if j > 0 {
                        assert(entries[j] == entries.skip(1)[j - 1]);
                    }
                }
            },
            None => {
                assert forall|j: int| 0 <= j < entries.len() implies entries[j].0 != key by {
                    if j > 0 {
                        assert(entries[j] == entries.skip(1)[j - 1]);
                    }
                }
            },
        }
    }
}

/// First cookie entry with the given name, if any.
pub open spec fn find_cookie(entries: Seq<(Seq<char>, Seq<char>)>, key: Seq<char>) -> Option<int>
    decreases entries.len(),
{
    if entries.len() == 0 {
        None
    } else if entries[0].0 == key {
        Some(0)
    } else {
        match find_cookie(entries.skip(1), key) {
            Some(i) => Some(i + 1),
            None => None,
        }
    }
}

/// What [`find_cookie`] returns, characterised without recursion.
pub proof fn lemma_find_cookie(entries: Seq<(Seq<char>, Seq<char>)>, key: Seq<char>)
    ensures
        match find_cookie(entries, key) {
            Some(i) => 0 <= i < entries.len() && entries[i].0 == key && forall|j: int|
                0 <= j < i ==> entries[j].0 != key,
            None => forall|j: int| 0 <= j < entries.len() ==> entries[j].0 != key,
        },
    decreases entries.len(),
{
    if entries.len() > 0 && entries[0].0 != key {
        lemma_find_cookie(entries.skip(1), key);
        match find_cookie(entries.skip(1), key) {
            Some(i) => {
                assert forall|j: int| 0 <= j < i + 1 implies entries[j].0 != key by {
                    if j > 0 {
                        assert(entries[j] == entries.skip(1)[j - 1]);
                    }
                }
            },
            None => {
                assert forall|j: int| 0 <= j < entries.len() implies entries[j].0 != key by {
                    if j > 0 {
                        assert(entries[j] == entries.skip(1)[j - 1]);
                    }
                }
            },
        }
    }
}

/// The cookie insert: a later value replaces an earlier one under the
/// same name, or opens a new entry at the end.
pub open spec fn insert_cookie_entry(
    entries: Seq<(Seq<char>, Seq<char>)>,
    key: Seq<char>,
    value: Seq<char>,
) -> Seq<(Seq<char>, Seq<char>)> {
    match find_cookie(entries, key) {
        Some(i) => entries.update(i, (entries[i].0, value)),
        None => entries.push((key, value)),
    }
}

/// The multimap insert: the value joins its key's list, or opens a new
/// entry at the end.
pub open spec fn insert_entry(
    entries: Seq<(Seq<char>, Seq<Seq<char>>)>,
    key: Seq<char>,
    value: Seq<char>,
) -> Seq<(Seq<char>, Seq<Seq<char>>)> {
    match find_entry(entries, key) {
        Some(i) => entries.update(i, (entries[i].0, entries[i].1.push(value))),
        None => entries.push((key, seq![value])),
    }
}

impl WebData {
    /// The decoded parameter multimap: each key with its values in
    /// insertion order.
    pub closed spec fn params_view(self) -> Seq<(Seq<char>, Seq<Seq<char>>)> {
        Seq::new(self.params@.len(), |i: int| (self.params@[i].0@, self.params@[i].1.deep_view()))
    }

    /// The cookie map: names with their values, later insertions winning.
    pub closed spec fn cookies_view(self) -> Seq<(Seq<char>, Seq<char>)> {
        Seq::new(self.cookies@.len(), |i: int| (self.cookies@[i].0@, self.cookies@[i].1@))
    }

    /// The stored raw query string.
    pub closed spec fn query_view(self) -> Option<String> {
        self.query
    }

    /// Every key in the parameter multimap holds at least one value; the
    /// constructors establish this and every method preserves it.
    pub closed spec fn wf(self) -> bool {
        forall|i: int| 0 <= i < self.params@.len() ==> self.params@[i].1@.len() > 0
    }

    /// An empty request-data holder, to be filled by the request layer.
    pub fn new() -> (r: WebData)
        ensures
            r.wf(),
            r.params_view() == Seq::<(Seq<char>, Seq<Seq<char>>)>::empty(),
            r.cookies_view() == Seq::<(Seq<char>, Seq<char>)>::empty(),
            r.query_view() is None,
    {
        let r = WebData { params: Vec::new(), cookies: Vec::new(), query: None };
        proof {
            assert(r.params_view() =~= Seq::<(Seq<char>, Seq<Seq<char>>)>::empty());
            assert(r.cookies_view() =~= Seq::<(Seq<char>, Seq<char>)>::empty());
        }
        r
    }

    /// Adds one decoded parameter value under its key.
    #[verifier::loop_isolation(false)]
    pub fn insert_param(&mut self, key: String, value: String)
        requires
            old(self).wf(),
        ensures
            final(self).wf(),
            final(self).params_view() == insert_entry(old(self).params_view(), key@, value@),
            final(self).cookies_view() == old(self).cookies_view(),
            final(self).query_view() == old(self).query_view(),
    {
        let ghost entries = self.params_view();
        let n = self.params.len();
        let mut i: usize = 0;
        while i < n
            invariant
                0 <= i <= n,
                n == self.params@.len(),
                *self == *old(self),
                entries == self.params_view(),
                forall|j: int| 0 <= j < i ==> entries[j].0 != key@,
            decreases n - i,
        {
            if str_eq(self.params[i].0.as_str(), key.as_str()) {
                proof {
                    lemma_find_entry(entries, key@);
                    let r = find_entry(entries, key@);
                    if r is None {
                        assert(entries[i as int].0 != key@);
                    } else {
                        let k = r->Some_0;
                        if k < i {
                            assert(entries[k].0 != key@);
                        } else if k > i {
                            assert(entries[i as int].0 != key@);
                        }
                    }
                }
                let ghost oldvals = self.params@[i as int].1.deep_view();
                self.params[i].1.push(value);
                proof {
                    assert(self.params@[i as int].1.deep_view() =~= oldvals.push(value@));
                    assert(self.params_view() =~= insert_entry(entries, key@, value@));
                    assert(self.cookies_view() =~= old(self).cookies_view());
                    assert forall|j: int| 0 <= j < self.params@.len() implies self.params@[j].1@.len()
                        > 0 by {
                        if j != i {
                            assert(self.params@[j] == old(self).params@[j]);
                        }
                    }
                }
                return ;
            }
            i = i + 1;
        }
        proof {
            lemma_find_entry(entries, key@);
            let r = find_entry(entries, key@);
            if r is Some {
                assert(entries[r->Some_0].0 != key@);
            }
        }
        let mut vals: Vec<String> = Vec::new();
        vals.push(value);
        self.params.push((key, vals));
        proof {
            assert(vals.deep_view() =~= seq![value@]);
            assert(self.params_view() =~= insert_entry(entries, key@, value@));
            assert(self.cookies_view() =~= old(self).cookies_view());
            assert forall|j: int| 0 <= j < self.params@.len() implies self.params@[j].1@.len()
                > 0 by {
                if j < self.params@.len() - 1 {
                    assert(self.params@[j] == old(self).params@[j]);
                }
            }
        }
    }

    /// The value of a parameter: the latest inserted under the key.
    #[verifier::loop_isolation(false)]
    pub fn param(&self, key: &str) -> (r: Option<String>)
        requires
            self.wf(),
        ensures
            match find_entry(self.params_view(), key@) {
                Some(i) => r matches Some(v) && v@ == self.params_view()[i].1.last(),
                None => r is None,
            },
    {
        let ghost entries = self.params_view();
        let n = self.params.len();
        let mut i: usize = 0;
        while i < n
            invariant
                0 <= i <= n,
                n == self.params@.len(),
                entries == self.params_view(),
                forall|j: int| 0 <= j < i ==> entries[j].0 != key@,
            decreases n - i,
        {
            if str_eq(self.params[i].0.as_str(), key) {
                proof {
                    lemma_find_entry(entries, key@);
                    entry_invariant_holds(entries, key@, i as int);
                }
                let vals = &self.params[i].1;
                proof {
                    assert(vals@.len() == entries[i as int].1.len());
                    assert(vals@.len() > 0);
                    assert(vals@[vals@.len() - 1]@ == entries[i as int].1.last());
                }
                return Some(vals[vals.len() - 1].clone());
            }
            i = i + 1;
        }
        proof {
            lemma_find_entry(entries, key@);
            let r = find_entry(entries, key@);
            if r is Some {
                assert(entries[r->Some_0].0 != key@);
            }
        }
        None
    }

    /// All values of a parameter: the latest first, then the earlier ones
    /// in insertion order.
    #[verifier::loop_isolation(false)]
    pub fn params(&self, key: &str) -> (r: Option<Vec<String>>)
        requires
            self.wf(),
        ensures
            match find_entry(self.params_view(), key@) {
                Some(i) => r matches Some(v) && v.deep_view() == ({
                    let vals = self.params_view()[i].1;
                    seq![vals.last()] + vals.drop_last()
                }),
                None => r is None,
            },
    {
        let ghost entries = self.params_view();
        let n = self.params.len();
        let mut i: usize = 0;
        while i < n
            invariant
                0 <= i <= n,
                n == self.params@.len(),
                entries == self.params_view(),
                forall|j: int| 0 <= j < i ==> entries[j].0 != key@,
            decreases n - i,
        {
            if str_eq(self.params[i].0.as_str(), key) {
                proof {
                    lemma_find_entry(entries, key@);
                    entry_invariant_holds(entries, key@, i as int);
                }
                let vals = &self.params[i].1;
                let ghost vv = entries[i as int].1;
                proof {
                    assert(vals@.len() == vv.len());
                    assert(vals@.len() > 0);
                }
                let m = vals.len();
                let mut res: Vec<String> = Vec::new();
                res.push(vals[m - 1].clone());
                let mut j: usize = 0;
                while j < m - 1
                    invariant
                        0 <= j <= m - 1,
                        m == vals@.len(),
                        vals@.len() == vv.len(),
                        forall|k: int| 0 <= k < vals@.len() ==> vals@[k]@ == vv[k],
                        res@.len() == j + 1,
                        res@[0]@ == vv.last(),
                        forall|k: int| 1 <= k < res@.len() ==> res@[k]@ == vv[k - 1],
                    decreases m - j,
                {
                    res.push(vals[j].clone());
                    j = j + 1;
                }
                proof {
                    assert(res.deep_view() =~= seq![vv.last()] + vv.drop_last());
                }
                return Some(res);
            }
            i = i + 1;
        }
        proof {
            lemma_find_entry(entries, key@);
            let r = find_entry(entries, key@);
            if r is Some {
                assert(entries[r->Some_0].0 != key@);
            }
        }
        None
    }

    /// The value of a cookie, if the request carried one under the name.
    #[verifier::loop_isolation(false)]
    pub fn cookie(&self, key: &str) -> (r: Option<String>)
        ensures
            match find_cookie(self.cookies_view(), key@) {
                Some(i) => r matches Some(v) && v@ == self.cookies_view()[i].1,
                None => r is None,
            },
    {
        let ghost entries = self.cookies_view();
        let n = self.cookies.len();
        let mut i: usize = 0;
        while i < n
            invariant
                0 <= i <= n,
                n == self.cookies@.len(),
                entries == self.cookies_view(),
                forall|j: int| 0 <= j < i ==> entries[j].0 != key@,
            decreases n - i,
        {
            if str_eq(self.cookies[i].0.as_str(), key) {
                proof {
                    lemma_find_cookie(entries, key@);
                    let r = find_cookie(entries, key@);
                    if r is None {
                        assert(entries[i as int].0 != key@);
                    } else {
                        let k = r->Some_0;
                        if k < i {
                            assert(entries[k].0 != key@);
                        } else if k > i {
                            assert(entries[i as int].0 != key@);
                        }
                    }
                }
                return Some(self.cookies[i].1.clone());
            }
            i = i + 1;
        }
        proof {
            lemma_find_cookie(entries, key@);
            let r = find_cookie(entries, key@);
            if r is Some {
                assert(entries[r->Some_0].0 != key@);
            }
        }
        None
    }

    /// Stores a cookie, replacing any earlier value under the same name.
    #[verifier::loop_isolation(false)]
    pub fn insert_cookie(&mut self, key: String, value: String)
        requires
            old(self).wf(),
        ensures
            final(self).wf(),
            final(self).cookies_view() == insert_cookie_entry(
                old(self).cookies_view(),
                key@,
                value@,
            ),
            final(self).params_view() == old(self).params_view(),
            final(self).query_view() == old(self).query_view(),
    {
        let ghost entries = self.cookies_view();
        let n = self.cookies.len();
        let mut i: usize = 0;
        while i < n
            invariant
                0 <= i <= n,
                n == self.cookies@.len(),
                *self == *old(self),
                entries == self.cookies_view(),
                forall|j: int| 0 <= j < i ==> entries[j].0 != key@,
            decreases n - i,
        {
            if str_eq(self.cookies[i].0.as_str(), key.as_str()) {
                proof {
                    lemma_find_cookie(entries, key@);
                    let r = find_cookie(entries, key@);
                    if r is None {
                        assert(entries[i as int].0 != key@);
                    } else {
                        let k = r->Some_0;
                        if k < i {
                            assert(entries[k].0 != key@);
                        } else if k > i {
                            assert(entries[i as int].0 != key@);
                        }
                    }
                }
                self.cookies[i].1 = value;
                proof {
                    assert(self.cookies_view() =~= insert_cookie_entry(entries, key@, value@));
                    assert(self.params_view() =~= old(self).params_view());
                }
                return ;
            }
            i = i + 1;
        }
        proof {
            lemma_find_cookie(entries, key@);
            let r = find_cookie(entries, key@);
            if r is Some {
                assert(entries[r->Some_0].0 != key@);
            }
        }
        self.cookies.push((key, value));
        proof {
            assert(self.cookies_view() =~= insert_cookie_entry(entries, key@, value@));
            assert(self.params_view() =~= old(self).params_view());
        }
    }

    /// Decodes one percent-encoded component: `%xy` becomes a byte, `+` a
    /// space, a non-ASCII character `?`, and the bytes are then read as
    /// UTF-8, invalid sequences replaced.
    #[verifier::loop_isolation(false)]
    pub fn url_comp_decode(&self, comp: &String) -> (r: String)
        requires
            valid_pct(comp@),
        ensures
            r@ == lossy_decode(pct_decode(comp@)),
    {
        let s = comp.as_str();
        let n = s.unicode_len();
        let mut bytes: Vec<u8> = Vec::new();
        let mut i: usize = 0;
        proof {
            assert(comp@.skip(0) =~= comp@);
        }
        while i < n
            invariant
                0 <= i <= n,
                n == comp@.len(),
                s@ == comp@,
                valid_pct(comp@.skip(i as int)),
                pct_decode(comp@) == bytes@ + pct_decode(comp@.skip(i as int)),
            decreases n - i,
        {
            let ghost rem = comp@.skip(i as int);
            let c = s.get_char(i);
            assert(c == rem[0]);
            if c == '%' {
                if n - i < 3 {
                    // the component ends inside the escape: it is dropped
                    proof {
                        assert(pct_decode(rem) =~= Seq::<u8>::empty());
                        assert(comp@.skip(n as int).len() == 0);
                        assert(pct_decode(comp@.skip(n as int)) =~= Seq::<u8>::empty());
                        assert(bytes@ + pct_decode(rem) =~= bytes@ + pct_decode(
                            comp@.skip(n as int),
                        ));
                    }
                    i = n;
                } else {
                    assert(rem.len() >= 3);
                    let c1 = s.get_char(i + 1);
                    let c2 = s.get_char(i + 2);
                    assert(c1 == rem[1] && c2 == rem[2]);
                    let v: u8 = 16 * hex_val_exec(c1) + hex_val_exec(c2);
                    bytes.push(v);
                    proof {
                        assert(rem.skip(3) =~= comp@.skip(i as int + 3));
                    }
                    i = i + 3;
                }
            } else if c == '+' {
                bytes.push(32);
                proof {
                    assert(rem.skip(1) =~= comp@.skip(i as int + 1));
                }
                i = i + 1;
            } else {
                let u = c as u32;
                if u < 128 {
                    bytes.push(u as u8);
                } else {
                    bytes.push(63);
                }
                proof {
                    assert(rem.skip(1) =~= comp@.skip(i as int + 1));
                }
                i = i + 1;
            }
        }
        proof {
            assert(bytes@ =~= pct_decode(comp@));
        }
        string_from_utf8_lossy(&bytes)
    }

    /// Decodes a key and value and adds them to the parameter multimap.
    pub fn add_form_pair(&mut self, key: &String, value: &String)
        requires
            old(self).wf(),
            valid_pct(key@),
            valid_pct(value@),
        ensures
            final(self).wf(),
            final(self).params_view() == insert_entry(
                old(self).params_view(),
                lossy_decode(pct_decode(key@)),
                lossy_decode(pct_decode(value@)),
            ),
            final(self).cookies_view() == old(self).cookies_view(),
            final(self).query_view() == old(self).query_view(),
    {
        let k = self.url_comp_decode(key);
        let v = self.url_comp_decode(value);
        self.insert_param(k, v);
    }
}

/// Pins which entry a linear scan stopped at.
proof fn entry_invariant_holds(entries: Seq<(Seq<char>, Seq<Seq<char>>)>, key: Seq<char>, i: int)
    requires
        0 <= i < entries.len(),
        entries[i].0 == key,
        forall|j: int| 0 <= j < i ==> entries[j].0 != key,
        match find_entry(entries, key) {
            Some(k) => 0 <= k < entries.len() && entries[k].0 == key && forall|j: int|
                0 <= j < k ==> entries[j].0 != key,
            None => forall|j: int| 0 <= j < entries.len() ==> entries[j].0 != key,
        },
    ensures
        find_entry(entries, key) == Some(i),
{
    match find_entry(entries, key) {
        Some(k) => {
            if k < i {
                assert(entries[k].0 != key);
            } else if k > i {
                assert(entries[i].0 != key);
            }
        },
        None => {
            assert(entries[i].0 != key);
        },
    }
}

/// Reads bytes as ISO-8859-1: each byte becomes the character with the
/// same code point.
pub fn iso_8859_1_to_string(s: &[u8]) -> (r: String)
    ensures
        r@.len() == s@.len(),
        forall|i: int| 0 <= i < s@.len() ==> r@[i] == s@[i] as char,
{
    let mut r = String::new();
    let mut i: usize = 0;
    while i < s.len()
        invariant
            0 <= i <= s@.len(),
            r@.len() == i,
            forall|j: int| 0 <= j < i ==> r@[j] == s@[j] as char,
        decreases s@.len() - i,
    {
        crate::strutil::push_char(&mut r, s[i] as char);
        i = i + 1;
    }
    r
}

/// Whether the path is absolute: it starts with the `/` separator.
pub fn has_root(path: &str) -> (r: bool)
    ensures
        r == (path@.len() > 0 && path@[0] == '/'),
{
    if path.is_empty() {
        false
    } else {
        path.get_char(0) == '/'
    }
}

/// Rewrites a native path for the web: every `\\` becomes `/`.
pub fn as_web_path(path: String) -> (r: String)
    ensures
        r@.len() == path@.len(),
        forall|i: int| 0 <= i < path@.len() ==> r@[i] == (if path@[i] == '\\' {
            '/'
        } else {
            path@[i]
        }),
{
    let s = path.as_str();
    let n = s.unicode_len();
    let mut r = String::new();
    let mut i: usize = 0;
    while i < n
        invariant
            0 <= i <= n,
            n == path@.len(),
            s@ == path@,
            r@.len() == i,
            forall|j: int| 0 <= j < i ==> r@[j] == (if path@[j] == '\\' {
                '/'
            } else {
                path@[j]
            }),
        decreases n - i,
    {
        let c = s.get_char(i);
        if c == '\\' {
            crate::strutil::push_char(&mut r, '/');
        } else {
            crate::strutil::push_char(&mut r, c);
        }
        i = i + 1;
    }
    r
}

/// The base64 alphabet, by six-bit value.
pub open spec fn b64_char(i: u8) -> char
    recommends
        i < 64,
{
    if i < 26 {
        ((i + 65) as char)
    } else if i < 52 {
        ((i - 26 + 97) as char)
    } else if i < 62 {
        ((i - 52 + 48) as char)
    } else if i == 62 {
        '+'
    } else {
        '/'
    }
}

/// Standard base64 with `=` padding, three input bytes to four characters.
pub open spec fn spec_base64(b: Seq<u8>) -> Seq<char>
    decreases b.len(),
{
    if b.len() == 0 {
        Seq::empty()
    } else if b.len() == 1 {
        seq![
            b64_char(b[0] / 4),
            b64_char(((b[0] % 4) * 16) as u8),
            '=',
            '=',
        ]
    } else if b.len() == 2 {
        seq![
            b64_char(b[0] / 4),
            b64_char(((b[0] % 4) * 16 + b[1] / 16) as u8),
            b64_char(((b[1] % 16) * 4) as u8),
            '=',
        ]
    } else {
        seq![
            b64_char(b[0] / 4),
            b64_char(((b[0] % 4) * 16 + b[1] / 16) as u8),
            b64_char(((b[1] % 16) * 4 + b[2] / 64) as u8),
            b64_char((b[2] % 64) as u8),
        ] + spec_base64(b.skip(3))
    }
}

/// One character of the base64 alphabet.
fn b64_char_exec(i: u8) -> (r: char)
    requires
        i < 64,
    ensures
        r == b64_char(i),
{
    if i < 26 {
        (i + 65) as char
    } else if i < 52 {
        (i - 26 + 97) as char
    } else if i < 62 {
        (i - 52 + 48) as char
    } else if i == 62 {
        '+'
    } else {
        '/'
    }
}

/// Encodes bytes as base64 with `=` padding.
#[verifier::loop_isolation(false)]
pub fn base64_encode_with_padding(input: &[u8]) -> (r: String)
    ensures
        r@ == spec_base64(input@),
{
    let n = input.len();
    let mut r = String::new();
    let mut i: usize = 0;
    proof {
        assert(input@.skip(0) =~= input@);
    }
    while n - i >= 3
        invariant
            0 <= i <= n,
            n == input@.len(),
            spec_base64(input@) == r@ + spec_base64(input@.skip(i as int)),
        decreases n - i,
    {
        let ghost rem = input@.skip(i as int);
        let b0 = input[i];
        let b1 = input[i + 1];
        let b2 = input[i + 2];
        assert(b0 == rem[0] && b1 == rem[1] && b2 == rem[2]);
        crate::strutil::push_char(&mut r, b64_char_exec(b0 / 4));
        crate::strutil::push_char(&mut r, b64_char_exec((b0 % 4) * 16 + b1 / 16));
        crate::strutil::push_char(&mut r, b64_char_exec((b1 % 16) * 4 + b2 / 64));
        crate::strutil::push_char(&mut r, b64_char_exec(b2 % 64));
        proof {
            assert(rem.skip(3) =~= input@.skip(i as int + 3));
        }
        i = i + 3;
    }
    let ghost rem = input@.skip(i as int);
    if n - i == 1 {
        let b0 = input[i];
        assert(b0 == rem[0]);
        crate::strutil::push_char(&mut r, b64_char_exec(b0 / 4));
        crate::strutil::push_char(&mut r, b64_char_exec((b0 % 4) * 16));
        crate::strutil::push_char(&mut r, '=');
        crate::strutil::push_char(&mut r, '=');
    } else if n - i == 2 {
        let b0 = input[i];
        let b1 = input[i + 1];
        assert(b0 == rem[0] && b1 == rem[1]);
        crate::strutil::push_char(&mut r, b64_char_exec(b0 / 4));
        crate::strutil::push_char(&mut r, b64_char_exec((b0 % 4) * 16 + b1 / 16));
        crate::strutil::push_char(&mut r, b64_char_exec((b1 % 16) * 4));
        crate::strutil::push_char(&mut r, '=');
    }
    r
}

/// Index of the first occurrence of `c` in `s`, if any.
pub open spec fn spec_find_char(s: Seq<char>, c: char) -> Option<int>
    decreases s.len(),
{
    if s.len() == 0 {
        None
    } else if s[0] == c {
        Some(0)
    } else {
        match spec_find_char(s.skip(1), c) {
            Some(i) => Some(i + 1),
            None => None,
        }
    }
}

/// What [`spec_find_char`] returns, characterised without recursion.
pub proof fn lemma_find_char(s: Seq<char>, c: char)
    ensures
        match spec_find_char(s, c) {
            Some(i) => 0 <= i < s.len() && s[i] == c && forall|j: int| 0 <= j < i ==> s[j] != c,
            None => forall|j: int| 0 <= j < s.len() ==> s[j] != c,
        },
    decreases s.len(),
{
    if s.len() > 0 && s[0] != c {
        lemma_find_char(s.skip(1), c);
        match spec_find_char(s.skip(1), c) {
            Some(i) => {
                assert(s[i + 1] == s.skip(1)[i]);
                assert forall|j: int| 0 <= j < i + 1 implies s[j] != c by {
                    if j > 0 {
                        assert(s[j] == s.skip(1)[j - 1]);
                    }
                }
            },
            None => {
                assert forall|j: int| 0 <= j < s.len() implies s[j] != c by {
                    if j > 0 {
                        assert(s[j] == s.skip(1)[j - 1]);
                    }
                }
            },
        }
    }
}

/// The pieces of `s` between occurrences of `sep`; empty pieces kept.
pub open spec fn spec_split(s: Seq<char>, sep: char) -> Seq<Seq<char>>
    decreases s.len(),
    via spec_split_decreases
{
    match spec_find_char(s, sep) {
        None => seq![s],
        Some(i) => seq![s.take(i)] + spec_split(s.skip(i + 1), sep),
    }
}

#[via_fn]
proof fn spec_split_decreases(s: Seq<char>, sep: char) {
    lemma_find_char(s, sep);
}

/// The key/value pairs of split pieces: a piece without `=` is skipped,
/// the rest split at their first `=`.
pub open spec fn pairs_of(parts: Seq<Seq<char>>) -> Seq<(Seq<char>, Seq<char>)>
    decreases parts.len(),
{
    if parts.len() == 0 {
        Seq::empty()
    } else {
        let rest = pairs_of(parts.skip(1));
        match spec_find_char(parts[0], '=') {
            Some(i) => seq![(parts[0].take(i), parts[0].skip(i + 1))] + rest,
            None => rest,
        }
    }
}

/// The raw key/value pairs of an `&`-separated query string.
pub open spec fn spec_parse_pairs(s: Seq<char>) -> Seq<(Seq<char>, Seq<char>)> {
    pairs_of(spec_split(s, '&'))
}

/// Position of the first `c` in `s` at or after `from`; `n` when none.
#[verifier::loop_isolation(false)]
fn find_char_from(s: &str, n: usize, from: usize, c: char) -> (r: usize)
    requires
        n == s@.len(),
        from <= n,
    ensures
        from <= r <= n,
        match spec_find_char(s@.skip(from as int), c) {
            Some(i) => r == from + i && r < n && s@[r as int] == c,
            None => r == n,
        },
{
    proof {
        lemma_find_char(s@.skip(from as int), c);
    }
    let mut j = from;
    while j < n
        invariant
            from <= j <= n,
            forall|k: int| from <= k < j ==> s@[k] != c,
        decreases n - j,
    {
        if s.get_char(j) == c {
            proof {
                lemma_find_char(s@.skip(from as int), c);
                let r = spec_find_char(s@.skip(from as int), c);
                if r is None {
                    assert(s@.skip(from as int)[j - from] != c);
                } else {
                    let i = r->Some_0;
                    if from + i < j {
                        assert(s@[from + i] == s@.skip(from as int)[i]);
                    } else if from + i > j {
                        assert(s@.skip(from as int)[j - from] != c);
                    }
                }
            }
            return j;
        }
        j = j + 1;
    }
    proof {
        lemma_find_char(s@.skip(from as int), c);
        let r = spec_find_char(s@.skip(from as int), c);
        if r is Some {
            assert(s@[from + r->Some_0] == s@.skip(from as int)[r->Some_0]);
        }
    }
    n
}

/// Splits a query string (or urlencoded body) into its raw key/value
/// pairs: pieces between `&`, each cut at its first `=`; pieces without
/// `=` are dropped.  The pairs are still percent-encoded.
pub fn split_query(query: &str) -> (r: Vec<(String, String)>)
    ensures
        r@.len() == spec_parse_pairs(query@).len(),
        forall|i: int| 0 <= i < r@.len() ==> r@[i].0@ == spec_parse_pairs(query@)[i].0
            && r@[i].1@ == spec_parse_pairs(query@)[i].1,
{
    let n = query.unicode_len();
    let mut out: Vec<(String, String)> = Vec::new();
    let mut pos: usize = 0;
    let ghost pairs = spec_parse_pairs(query@);
    proof {
        assert(query@.skip(0) =~= query@);
    }
    loop
        invariant_except_break
            0 <= pos <= n,
            n == query@.len(),
            pairs == spec_parse_pairs(query@),
            out@.len() <= pairs.len(),
            pairs =~= out_pairs(out@) + pairs_of(spec_split(query@.skip(pos as int), '&')),
            out_pairs(out@) =~= pairs.take(out@.len() as int),
        ensures
            out@.len() == pairs.len(),
            forall|i: int| 0 <= i < out@.len() ==> out@[i].0@ == pairs[i].0 && out@[i].1@
                == pairs[i].1,
        decreases n - pos + 1,
    {
        let ghost rem = query@.skip(pos as int);
        let amp = find_char_from(query, n, pos, '&');
        let part = query.substring_char(pos, amp);
        let ghost pv = part@;
        proof {
            assert(pv =~= rem.take(amp - pos as int));
            lemma_find_char(rem, '&');
        }
        let pn = amp - pos;
        assert(pn == pv.len());
        let eq = find_char_from(part, pn, 0, '=');
        proof {
            assert(pv.skip(0) =~= pv);
        }
        let ghost sp = spec_split(rem, '&');
        proof {
            if amp < n {
                assert(spec_find_char(rem, '&') == Some(amp - pos as int));
                assert(sp == seq![pv] + spec_split(query@.skip(amp as int + 1), '&')) by {
                    assert(rem.skip(amp - pos as int + 1) =~= query@.skip(amp as int + 1));
                    assert(rem.take(amp - pos as int) == pv);
                }
                assert(sp.skip(1) =~= spec_split(query@.skip(amp as int + 1), '&'));
            } else {
                assert(spec_find_char(rem, '&') is None);
                assert(sp == seq![rem]);
                assert(pv =~= rem);
            }
            assert(sp[0] == pv);
        }
        if eq < pn {
            let k = part.substring_char(0, eq);
            let v = part.substring_char(eq + 1, pn);
            let ghost o0 = out@;
            out.push((k.to_owned(), v.to_owned()));
            proof {
                assert(spec_find_char(pv, '=') == Some(eq as int));
                assert(k@ =~= pv.take(eq as int));
                assert(v@ =~= pv.skip(eq as int + 1));
                assert(out_pairs(out@) =~= out_pairs(o0) + seq![(pv.take(eq as int), pv.skip(
                    eq as int + 1,
                ))]);
            }
        } else {
            proof {
                assert(spec_find_char(pv, '=') is None);
            }
        }
        proof {
            assert(pairs_of(sp) == (match spec_find_char(pv, '=') {
                Some(i) => seq![(pv.take(i), pv.skip(i + 1))] + pairs_of(sp.skip(1)),
                None => pairs_of(sp.skip(1)),
            })) by {
                if amp == n {
                    assert(sp.skip(1) =~= Seq::<Seq<char>>::empty());
                }
            }
        }
        if amp == n {
            proof {
                assert(sp.skip(1) =~= Seq::<Seq<char>>::empty());
                assert(pairs_of(sp.skip(1)) =~= Seq::<(Seq<char>, Seq<char>)>::empty());
                assert(pairs =~= out_pairs(out@));
                assert(out_pairs(out@) =~= pairs.take(out@.len() as int));
                lemma_out_pairs(out@, pairs);
            }
            break ;
        }
        pos = amp + 1;
        proof {
            assert(pairs =~= out_pairs(out@) + pairs_of(spec_split(query@.skip(pos as int), '&')));
            assert(out_pairs(out@) =~= pairs.take(out@.len() as int));
        }
    }
    out
}

/// The spec-level reading of collected pairs.
pub open spec fn out_pairs(v: Seq<(String, String)>) -> Seq<(Seq<char>, Seq<char>)> {
    Seq::new(v.len(), |i: int| (v[i].0@, v[i].1@))
}

/// Collected pairs that read as a pair sequence agree with it pointwise.
proof fn lemma_out_pairs(v: Seq<(String, String)>, pairs: Seq<(Seq<char>, Seq<char>)>)
    requires
        out_pairs(v) == pairs.take(v.len() as int),
        v.len() <= pairs.len(),
    ensures
        forall|i: int| 0 <= i < v.len() ==> v[i].0@ == pairs[i].0 && v[i].1@ == pairs[i].1,
{
    assert forall|i: int| 0 <= i < v.len() implies v[i].0@ == pairs[i].0 && v[i].1@
        == pairs[i].1 by {
        assert(out_pairs(v)[i] == (v[i].0@, v[i].1@));
        assert(pairs.take(v.len() as int)[i] == pairs[i]);
    }
}

/// ASCII whitespace, as trimmed from cookie names.
pub open spec fn is_space(c: char) -> bool {
    c == ' ' || c == '\t' || c == '\r' || c == '\n'
}

/// `s` without leading whitespace.
pub open spec fn trim_left(s: Seq<char>) -> Seq<char>
    decreases s.len(),
{
    if s.len() > 0 && is_space(s[0]) {
        trim_left(s.skip(1))
    } else {
        s
    }
}

/// `s` without trailing whitespace.
pub open spec fn trim_right(s: Seq<char>) -> Seq<char>
    decreases s.len(),
{
    if s.len() > 0 && is_space(s.last()) {
        trim_right(s.drop_last())
    } else {
        s
    }
}

/// `s` without leading or trailing ASCII whitespace.
pub open spec fn spec_trim(s: Seq<char>) -> Seq<char> {
    trim_right(trim_left(s))
}

/// Cuts leading and trailing ASCII whitespace.
#[verifier::loop_isolation(false)]
pub fn trim_str(s: &str) -> (r: String)
    ensures
        r@ == spec_trim(s@),
{
    let n = s.unicode_len();
    let mut a: usize = 0;
    proof {
        assert(s@.skip(0) =~= s@);
    }
    while a < n && (s.get_char(a) == ' ' || s.get_char(a) == '\t' || s.get_char(a) == '\r'
        || s.get_char(a) == '\n')
        invariant
            0 <= a <= n,
            trim_left(s@) == trim_left(s@.skip(a as int)),
        decreases n - a,
    {
        proof {
            assert(s@.skip(a as int)[0] == s@[a as int]);
            assert(s@.skip(a as int).skip(1) =~= s@.skip(a as int + 1));
        }
        a = a + 1;
    }
    proof {
        if a < n {
            assert(s@.skip(a as int)[0] == s@[a as int]);
        }
        assert(trim_left(s@) == s@.skip(a as int));
    }
    let mut b: usize = n;
    proof {
        assert(s@.subrange(a as int, b as int) =~= s@.skip(a as int));
    }
    while b > a && (s.get_char(b - 1) == ' ' || s.get_char(b - 1) == '\t' || s.get_char(b - 1)
        == '\r' || s.get_char(b - 1) == '\n')
        invariant
            a <= b <= n,
            trim_right(trim_left(s@)) == trim_right(s@.subrange(a as int, b as int)),
        decreases b,
    {
        proof {
            let sub = s@.subrange(a as int, b as int);
            assert(sub.last() == s@[b - 1]);
            assert(sub.drop_last() =~= s@.subrange(a as int, b as int - 1));
        }
        b = b - 1;
    }
    proof {
        let sub = s@.subrange(a as int, b as int);
        if b > a {
            assert(sub.last() == s@[b - 1]);
        }
        assert(trim_right(sub) == sub);
    }
    s.substring_char(a, b).to_owned()
}

/// What one `;`-separated cookie header piece does to the cookie map: a
/// piece without `=` does nothing, the rest store their value under the
/// whitespace-trimmed name.
pub open spec fn apply_cookie_parts(
    entries: Seq<(Seq<char>, Seq<char>)>,
    parts: Seq<Seq<char>>,
) -> Seq<(Seq<char>, Seq<char>)>
    decreases parts.len(),
{
    if parts.len() == 0 {
        entries
    } else {
        let stepped = match spec_find_char(parts[0], '=') {
            Some(i) => insert_cookie_entry(entries, spec_trim(parts[0].take(i)), parts[0].skip(
                i + 1,
            )),
            None => entries,
        };
        apply_cookie_parts(stepped, parts.skip(1))
    }
}

impl WebData {
    /// Fills the cookie map from a `Cookie` header: `;`-separated
    /// `name=value` pieces, names trimmed of surrounding whitespace.
    pub fn add_cookie_header(&mut self, header: &str)
        requires
            old(self).wf(),
        ensures
            final(self).wf(),
            final(self).cookies_view() == apply_cookie_parts(
                old(self).cookies_view(),
                spec_split(header@, ';'),
            ),
            final(self).params_view() == old(self).params_view(),
            final(self).query_view() == old(self).query_view(),
    {
        let n = header.unicode_len();
        let mut pos: usize = 0;
        let ghost goal = apply_cookie_parts(old(self).cookies_view(), spec_split(header@, ';'));
        proof {
            assert(header@.skip(0) =~= header@);
        }
        loop
            invariant_except_break
                0 <= pos <= n,
                n == header@.len(),
                self.wf(),
                self.params_view() == old(self).params_view(),
                self.query_view() == old(self).query_view(),
                goal == apply_cookie_parts(old(self).cookies_view(), spec_split(header@, ';')),
                goal == apply_cookie_parts(
                    self.cookies_view(),
                    spec_split(header@.skip(pos as int), ';'),
                ),
            ensures
                self.wf(),
                self.params_view() == old(self).params_view(),
                self.query_view() == old(self).query_view(),
                self.cookies_view() == goal,
            decreases n - pos + 1,
        {
            let ghost rem = header@.skip(pos as int);
            let semi = find_char_from(header, n, pos, ';');
            let part = header.substring_char(pos, semi);
            let ghost pv = part@;
            proof {
                assert(pv =~= rem.take(semi - pos as int));
                lemma_find_char(rem, ';');
            }
            let pn = semi - pos;
            assert(pn == pv.len());
            let ghost sp = spec_split(rem, ';');
            proof {
                if semi < n {
                    assert(spec_find_char(rem, ';') == Some(semi - pos as int));
                    assert(sp == seq![pv] + spec_split(header@.skip(semi as int + 1), ';')) by {
                        assert(rem.skip(semi - pos as int + 1) =~= header@.skip(semi as int + 1));
                        assert(rem.take(semi - pos as int) == pv);
                    }
                    assert(sp.skip(1) =~= spec_split(header@.skip(semi as int + 1), ';'));
                } else {
                    assert(spec_find_char(rem, ';') is None);
                    assert(sp == seq![rem]);
                    assert(pv =~= rem);
                    assert(sp.skip(1) =~= Seq::<Seq<char>>::empty());
                }
                assert(sp[0] == pv);
            }
            let eq = find_char_from(part, pn, 0, '=');
            proof {
                assert(pv.skip(0) =~= pv);
            }
            if eq < pn {
                let rawkey = part.substring_char(0, eq);
                let value = part.substring_char(eq + 1, pn);
                let key = trim_str(rawkey);
                proof {
                    assert(spec_find_char(pv, '=') == Some(eq as int));
                    assert(rawkey@ =~= pv.take(eq as int));
                    assert(value@ =~= pv.skip(eq as int + 1));
                }
                self.insert_cookie(key, value.to_owned());
            } else {
                proof {
                    assert(spec_find_char(pv, '=') is None);
                }
            }
            if semi == n {
                proof {
                    assert(apply_cookie_parts(self.cookies_view(), Seq::<Seq<char>>::empty())
                        == self.cookies_view());
                }
                break ;
            }
            pos = semi + 1;
        }
    }
}

/// A Gregorian leap year.
pub open spec fn is_leap(y: int) -> bool {
    y % 4 == 0 && (y % 100 != 0 || y % 400 == 0)
}

/// Days in a Gregorian year.
pub open spec fn days_in_year(y: int) -> int {
    if is_leap(y) {
        366
    } else {
        365
    }
}

/// Days in a month of a Gregorian year.
pub open spec fn days_in_month(y: int, m: int) -> int
    recommends
        1 <= m <= 12,
{
    if m == 2 {
        if is_leap(y) {
            29
        } else {
            28
        }
    } else if m == 4 || m == 6 || m == 9 || m == 11 {
        30
    } else {
        31
    }
}

/// The year a day count from 1970-01-01 falls in, and the day within it.
pub open spec fn spec_year_of(days: int, y: int) -> (int, int)
    recommends
        days >= 0,
    decreases days,
{
    if 0 <= days < days_in_year(y) {
        (y, days)
    } else if days >= days_in_year(y) {
        spec_year_of(days - days_in_year(y), y + 1)
    } else {
        (y, days)
    }
}

/// Days in the months of `y` before month `m`.
pub open spec fn days_before_month(y: int, m: int) -> int
    decreases m,
{
    if m <= 1 {
        0
    } else {
        days_before_month(y, m - 1) + days_in_month(y, m - 1)
    }
}

/// The month a day count within a year falls in, and the day within it.
pub open spec fn spec_month_of(days: int, m: int, y: int) -> (int, int)
    recommends
        days >= 0,
    decreases days + 13 - m,
{
    if m > 12 || days < days_in_month(y, m) || days < 0 || days_in_month(y, m) <= 0 {
        (m, days)
    } else {
        spec_month_of(days - days_in_month(y, m), m + 1, y)
    }
}

/// The calendar fields of a count of seconds since the Unix epoch:
/// year, month, day of month, hour, minute, second, and day of week
/// (with Thursday, the epoch's weekday, as day zero).
pub open spec fn spec_datetime(secs: u64) -> (int, int, int, int, int, int, int) {
    let days = secs as int / 86400;
    let rem = secs as int % 86400;
    let (y, yd) = spec_year_of(days, 1970);
    let (m, md) = spec_month_of(yd, 1, y);
    (y, m, md + 1, rem / 3600, (rem % 3600) / 60, rem % 60, days % 7)
}

/// Splits epoch seconds into calendar fields, per [`spec_datetime`].
#[verifier::loop_isolation(false)]
pub fn get_datetime(secs: u64) -> (r: (u64, u64, u64, u64, u64, u64, u64))
    ensures
        ({
            let (y, m, d, h, mi, s, w) = spec_datetime(secs);
            r.0 == y && r.1 == m && r.2 == d && r.3 == h && r.4 == mi && r.5 == s && r.6 == w
        }),
        1 <= r.1 <= 12,
        1 <= r.2 <= 31,
        r.3 < 24,
        r.4 < 60,
        r.5 < 60,
        r.6 < 7,
{
    let days0 = secs / 86400;
    let rem = secs % 86400;
    let mut days = days0;
    let mut y: u64 = 1970;
    loop
        invariant
            1970 <= y,
            days <= days0,
            y - 1970 <= days0 - days,
            spec_year_of(days0 as int, 1970) == spec_year_of(days as int, y as int),
        decreases days,
    {
        let dy: u64 = if (y % 4 == 0 && (y % 100 != 0 || y % 400 == 0)) {
            366
        } else {
            365
        };
        assert(dy == days_in_year(y as int));
        if days < dy {
            break ;
        }
        days = days - dy;
        y = y + 1;
    }
    assert(spec_year_of(days0 as int, 1970) == (y as int, days as int));
    assert(days < days_in_year(y as int));
    let mut m: u64 = 1;
    let ghost yd = days;
    loop
        invariant
            1 <= m <= 12,
            days + days_before_month(y as int, m as int) == yd,
            yd < days_in_year(y as int),
            spec_month_of(yd as int, 1, y as int) == spec_month_of(days as int, m as int, y as int),
        decreases 13 - m,
    {
        let dm: u64 = if m == 2 {
            if (y % 4 == 0 && (y % 100 != 0 || y % 400 == 0)) {
                29
            } else {
                28
            }
        } else if m == 4 || m == 6 || m == 9 || m == 11 {
            30
        } else {
            31
        };
        assert(dm == days_in_month(y as int, m as int));
        if days < dm {
            break ;
        }
        proof {
            if m == 12 {
                assert(days_before_month(y as int, 13) == days_in_year(y as int)) by {
                    reveal_with_fuel(days_before_month, 14);
                }
                assert(false);
            }
        }
        days = days - dm;
        m = m + 1;
    }
    assert(spec_month_of(yd as int, 1, y as int) == (m as int, days as int));
    (y, m, days + 1, rem / 3600, (rem % 3600) / 60, rem % 60, days0 % 7)
}

/// Decimal digits of a nonnegative number, most significant first.
pub open spec fn spec_dec(n: int) -> Seq<char>
    recommends
        n >= 0,
    decreases n,
{
    if n < 10 {
        seq![((n % 10 + 48) as u8 as char)]
    } else {
        spec_dec(n / 10) + seq![((n % 10 + 48) as u8 as char)]
    }
}

/// Decimal digits, zero-padded on the left to at least two.
pub open spec fn spec_pad2(n: int) -> Seq<char>
    recommends
        n >= 0,
{
    if n < 10 {
        seq!['0'] + spec_dec(n)
    } else {
        spec_dec(n)
    }
}

/// Weekday name, with Thursday — the epoch's weekday — as day zero.
pub open spec fn day_name(w: int) -> Seq<char>
    recommends
        0 <= w < 7,
{
    if w == 0 {
        "Thu"@
    } else if w == 1 {
        "Fri"@
    } else if w == 2 {
        "Sat"@
    } else if w == 3 {
        "Sun"@
    } else if w == 4 {
        "Mon"@
    } else if w == 5 {
        "Tue"@
    } else {
        "Wed"@
    }
}

/// Month name, January first.
pub open spec fn month_name(m: int) -> Seq<char>
    recommends
        1 <= m <= 12,
{
    if m == 1 {
        "Jan"@
    } else if m == 2 {
        "Feb"@
    } else if m == 3 {
        "Mar"@
    } else if m == 4 {
        "Apr"@
    } else if m == 5 {
        "May"@
    } else if m == 6 {
        "Jun"@
    } else if m == 7 {
        "Jul"@
    } else if m == 8 {
        "Aug"@
    } else if m == 9 {
        "Sep"@
    } else if m == 10 {
        "Oct"@
    } else if m == 11 {
        "Nov"@
    } else {
        "Dec"@
    }
}

/// The HTTP date line for a count of epoch seconds, as used by the
/// `Expires` cookie attribute and the `Date` header.
pub open spec fn spec_http_time(secs: u64) -> Seq<char> {
    let (y, m, d, h, mi, s, w) = spec_datetime(secs);
    day_name(w) + ", "@ + spec_pad2(d) + " "@ + month_name(m) + " "@ + spec_pad2(y) + " "@
        + spec_pad2(h) + ":"@ + spec_pad2(mi) + ":"@ + spec_pad2(s) + " GMT"@
}

/// Decimal digits of `n`.
pub fn u64_dec(n: u64) -> (r: String)
    ensures
        r@ == spec_dec(n as int),
    decreases n,
{
    if n < 10 {
        let mut r = String::new();
        crate::strutil::push_char(&mut r, (n as u8 + 48) as char);
        proof {
            assert(Seq::<char>::empty().push((n as u8 + 48) as char) =~= spec_dec(n as int));
        }
        r
    } else {
        let mut r = u64_dec(n / 10);
        crate::strutil::push_char(&mut r, ((n % 10) as u8 + 48) as char);
        proof {
            assert(spec_dec(n as int / 10).push(((n % 10) as u8 + 48) as char) =~= spec_dec(
                n as int,
            ));
        }
        r
    }
}

/// Decimal digits of `n`, zero-padded to at least two.
pub fn u64_pad2(n: u64) -> (r: String)
    ensures
        r@ == spec_pad2(n as int),
{
    if n < 10 {
        let mut r = String::new();
        crate::strutil::push_char(&mut r, '0');
        crate::strutil::push_char(&mut r, (n as u8 + 48) as char);
        proof {
            assert(r@ =~= spec_pad2(n as int));
        }
        r
    } else {
        u64_dec(n)
    }
}

/// The weekday name for [`spec_datetime`]'s weekday number.
fn day_name_exec(w: u64) -> (r: &'static str)
    requires
        w < 7,
    ensures
        r@ == day_name(w as int),
{
    if w == 0 {
        "Thu"
    } else if w == 1 {
        "Fri"
    } else if w == 2 {
        "Sat"
    } else if w == 3 {
        "Sun"
    } else if w == 4 {
        "Mon"
    } else if w == 5 {
        "Tue"
    } else {
        "Wed"
    }
}

/// The month name for a month number.
fn month_name_exec(m: u64) -> (r: &'static str)
    requires
        1 <= m <= 12,
    ensures
        r@ == month_name(m as int),
{
    if m == 1 {
        "Jan"
    } else if m == 2 {
        "Feb"
    } else if m == 3 {
        "Mar"
    } else if m == 4 {
        "Apr"
    } else if m == 5 {
        "May"
    } else if m == 6 {
        "Jun"
    } else if m == 7 {
        "Jul"
    } else if m == 8 {
        "Aug"
    } else if m == 9 {
        "Sep"
    } else if m == 10 {
        "Oct"
    } else if m == 11 {
        "Nov"
    } else {
        "Dec"
    }
}

/// Formats epoch seconds as an HTTP date line, per [`spec_http_time`].
pub fn http_format_time(secs: u64) -> (r: String)
    ensures
        r@ == spec_http_time(secs),
{
    let (y, m, d, h, mi, s, w) = get_datetime(secs);
    let mut r = String::new();
    r.append(day_name_exec(w));
    r.append(", ");
    r.append(u64_pad2(d).as_str());
    r.append(" ");
    r.append(month_name_exec(m));
    r.append(" ");
    r.append(u64_pad2(y).as_str());
    r.append(" ");
    r.append(u64_pad2(h).as_str());
    r.append(":");
    r.append(u64_pad2(mi).as_str());
    r.append(":");
    r.append(u64_pad2(s).as_str());
    r.append(" GMT");
    r
}

/// Days in the years from `from` up to (excluding) `to`.
pub open spec fn years_days(from: int, to: int) -> int
    decreases to - from,
{
    if to <= from {
        0
    } else {
        years_days(from, to - 1) + days_in_year(to - 1)
    }
}

/// Calendar fields that name a real moment: a year from 1970 on, a day
/// the month has, and a time of day.
pub open spec fn valid_civil(y: int, m: int, d: int, h: int, mi: int, s: int) -> bool {
    &&& y >= 1970
    &&& 1 <= m <= 12
    &&& 1 <= d <= days_in_month(y, m)
    &&& 0 <= h < 24
    &&& 0 <= mi < 60
    &&& 0 <= s < 60
}

/// The epoch seconds of calendar fields.
pub open spec fn spec_epoch_seconds(y: int, m: int, d: int, h: int, mi: int, s: int) -> int {
    (years_days(1970, y) + days_before_month(y, m) + (d - 1)) * 86400 + h * 3600 + mi * 60 + s
}

/// Counting days over whole years stays within a 366-day-per-year bound.
proof fn lemma_years_days_bound(from: int, to: int)
    requires
        from <= to,
    ensures
        0 <= years_days(from, to) <= (to - from) * 366,
    decreases to - from,
{
    if to > from {
        lemma_years_days_bound(from, to - 1);
        assert((to - 1 - from) * 366 + 366 == (to - from) * 366) by (nonlinear_arith);
    }
}

/// Counting days over the months of one year stays below a year's worth.
proof fn lemma_days_before_month_bound(y: int, m: int)
    requires
        1 <= m <= 13,
    ensures
        0 <= days_before_month(y, m) <= 366,
{
    reveal_with_fuel(days_before_month, 14);
}

/// Converts calendar fields to epoch seconds; fields that name no real
/// moment are rejected.
#[verifier::loop_isolation(false)]
pub fn seconds_from_epoch(year: u32, month: u32, day: u32, hour: u32, minute: u32, second: u32)
    -> (r: Result<u64, &'static str>)
    ensures
        valid_civil(year as int, month as int, day as int, hour as int, minute as int, second as int)
            <==> r is Ok,
        r matches Ok(n) ==> n == spec_epoch_seconds(
            year as int,
            month as int,
            day as int,
            hour as int,
            minute as int,
            second as int,
        ),
        r matches Err(e) ==> e@ == "timestamp names no real moment"@,
{
    if year < 1970 || month < 1 || month > 12 || hour >= 24 || minute >= 60 || second >= 60 {
        return Err("timestamp names no real moment");
    }
    let dim: u32 = if month == 2 {
        if year % 4 == 0 && (year % 100 != 0 || year % 400 == 0) {
            29
        } else {
            28
        }
    } else if month == 4 || month == 6 || month == 9 || month == 11 {
        30
    } else {
        31
    };
    assert(dim == days_in_month(year as int, month as int));
    if day < 1 || day > dim {
        return Err("timestamp names no real moment");
    }
    let mut days: u64 = 0;
    let mut y: u32 = 1970;
    proof {
        lemma_years_days_bound(1970, year as int);
    }
    while y < year
        invariant
            1970 <= y <= year,
            days == years_days(1970, y as int),
            days <= (y - 1970) * 366,
        decreases year - y,
    {
        let dy: u64 = if y % 4 == 0 && (y % 100 != 0 || y % 400 == 0) {
            366
        } else {
            365
        };
        assert(dy == days_in_year(y as int));
        proof {
            assert((y as int - 1970) * 366 + 366 == (y as int + 1 - 1970) * 366)
                by (nonlinear_arith);
        }
        days = days + dy;
        y = y + 1;
    }
    let mut m: u32 = 1;
    while m < month
        invariant
            1 <= m <= month <= 12,
            days == years_days(1970, year as int) + days_before_month(year as int, m as int),
            days <= (year - 1970) * 366 + 366,
            year >= 1970,
        decreases month - m,
    {
        let dm: u64 = if m == 2 {
            if year % 4 == 0 && (year % 100 != 0 || year % 400 == 0) {
                29
            } else {
                28
            }
        } else if m == 4 || m == 6 || m == 9 || m == 11 {
            30
        } else {
            31
        };
        assert(dm == days_in_month(year as int, m as int));
        proof {
            lemma_years_days_bound(1970, year as int);
            lemma_days_before_month_bound(year as int, m as int + 1);
        }
        days = days + dm;
        m = m + 1;
    }
    let days_total: u64 = days + (day - 1) as u64;
    proof {
        let yy = year as int - 1970;
        assert(0 <= yy <= 4294967295);
        assert(yy * 366 <= 4294967295 * 366) by (nonlinear_arith)
            requires
                0 <= yy <= 4294967295,
        ;
        assert(days_total <= 4294967295 * 366 + 397);
        assert(days_total * 86400 <= (4294967295 * 366 + 397) * 86400) by (nonlinear_arith)
            requires
                0 <= days_total <= 4294967295 * 366 + 397,
        ;
    }
    let secs: u64 = days_total * 86400 + (hour as u64) * 3600 + (minute as u64) * 60 + (
    second as u64);
    Ok(secs)
}

/// What `u32` parsing accepts: an optional `+`, then digits whose value
/// fits, as `str::parse` reads them.
pub open spec fn spec_parse_u32(s: Seq<char>) -> Option<int> {
    let digits = crate::template::usize_digits(s);
    if digits.len() > 0 && (forall|i: int|
        0 <= i < digits.len() ==> crate::template::is_digit(#[trigger] digits[i]))
        && crate::template::digits_val(digits) <= u32::MAX {
        Some(crate::template::digits_val(digits))
    } else {
        None
    }
}

/// Parses a `u32` as `str::parse` would: optional `+`, then digits;
/// `None` on anything else or on overflow.
#[verifier::loop_isolation(false)]
pub fn parse_u32(s: &String) -> (r: Option<u32>)
    ensures
        match spec_parse_u32(s@) {
            Some(v) => r matches Some(u) && u == v,
            None => r is None,
        },
{
    let n = s.as_str().unicode_len();
    let start: usize = if n > 0 && s.as_str().get_char(0) == '+' {
        1
    } else {
        0
    };
    let ghost digits = crate::template::usize_digits(s@);
    if n == start {
        assert(digits.len() == 0);
        return None;
    }
    let mut acc: u32 = 0;
    let mut i = start;
    while i < n
        invariant
            start <= i <= n,
            n == s@.len(),
            digits == crate::template::usize_digits(s@),
            digits.len() == n - start,
            (start == 1) == (s@.len() > 0 && s@[0] == '+'),
            forall|j: int| 0 <= j < i - start ==> crate::template::is_digit(#[trigger] digits[j]),
            acc == crate::template::digits_val(digits.take(i - start)),
        decreases n - i,
    {
        let c = s.as_str().get_char(i);
        assert(c == digits[i - start]);
        if !('0' <= c && c <= '9') {
            proof {
                if spec_parse_u32(s@) is Some {
                    assert(crate::template::is_digit(digits[i - start]));
                }
            }
            return None;
        }
        let d = ((c as u32) - 48);
        if acc > (u32::MAX - d) / 10 {
            proof {
                let pre = digits.take(i - start + 1);
                assert(pre.drop_last() =~= digits.take(i - start));
                assert(pre.last() == digits[i - start]);
                assert(crate::template::digits_val(pre) == acc * 10 + d);
                assert(crate::template::digits_val(pre) > u32::MAX);
                if spec_parse_u32(s@) is Some {
                    crate::template::lemma_digits_prefix_bound(digits, i - start + 1);
                }
            }
            return None;
        }
        proof {
            let pre = digits.take(i - start + 1);
            assert(pre.drop_last() =~= digits.take(i - start));
            assert(pre.last() == digits[i - start]);
        }
        acc = acc * 10 + d;
        i = i + 1;
    }
    proof {
        assert(digits.take(n - start) =~= digits);
    }
    Some(acc)
}

/// ASCII whitespace as the timestamp's field separator.
pub open spec fn is_ascii_ws(c: char) -> bool {
    c == ' ' || c == '\t' || c == '\n' || c == '\r' || c == '\u{c}'
}

/// Index of the first ASCII whitespace in `s`, if any.
pub open spec fn find_ws(s: Seq<char>) -> Option<int>
    decreases s.len(),
{
    if s.len() == 0 {
        None
    } else if is_ascii_ws(s[0]) {
        Some(0)
    } else {
        match find_ws(s.skip(1)) {
            Some(i) => Some(i + 1),
            None => None,
        }
    }
}

/// What [`find_ws`] returns, characterised without recursion.
pub proof fn lemma_find_ws(s: Seq<char>)
    ensures
        match find_ws(s) {
            Some(i) => 0 <= i < s.len() && is_ascii_ws(s[i]) && forall|j: int|
                0 <= j < i ==> !is_ascii_ws(s[j]),
            None => forall|j: int| 0 <= j < s.len() ==> !is_ascii_ws(s[j]),
        },
    decreases s.len(),
{
    if s.len() > 0 && !is_ascii_ws(s[0]) {
        lemma_find_ws(s.skip(1));
        match find_ws(s.skip(1)) {
            Some(i) => {
                assert(s[i + 1] == s.skip(1)[i]);
                assert forall|j: int| 0 <= j < i + 1 implies !is_ascii_ws(s[j]) by {
                    if j > 0 {
                        assert(s[j] == s.skip(1)[j - 1]);
                    }
                }
            },
            None => {
                assert forall|j: int| 0 <= j < s.len() implies !is_ascii_ws(s[j]) by {
                    if j > 0 {
                        assert(s[j] == s.skip(1)[j - 1]);
                    }
                }
            },
        }
    }
}

/// The whitespace-separated fields of `s`, empty runs skipped.
pub open spec fn ws_parts(s: Seq<char>) -> Seq<Seq<char>>
    decreases s.len(),
    via ws_parts_decreases
{
    if s.len() == 0 {
        Seq::empty()
    } else if is_ascii_ws(s[0]) {
        ws_parts(s.skip(1))
    } else {
        match find_ws(s) {
            None => seq![s],
            Some(e) => seq![s.take(e)] + ws_parts(s.skip(e)),
        }
    }
}

#[via_fn]
proof fn ws_parts_decreases(s: Seq<char>) {
    lemma_find_ws(s);
}

/// Index of the first `, ` in `s`, if any.
pub open spec fn find_comma_space(s: Seq<char>) -> Option<int>
    decreases s.len(),
{
    if s.len() < 2 {
        None
    } else if s[0] == ',' && s[1] == ' ' {
        Some(0)
    } else {
        match find_comma_space(s.skip(1)) {
            Some(i) => Some(i + 1),
            None => None,
        }
    }
}

/// What [`find_comma_space`] returns, characterised without recursion.
pub proof fn lemma_find_comma_space(s: Seq<char>)
    ensures
        match find_comma_space(s) {
            Some(i) => 0 <= i && i + 2 <= s.len() && s[i] == ',' && s[i + 1] == ' ' && forall|
                j: int,
            | 0 <= j < i ==> !(#[trigger] s[j] == ',' && s[j + 1] == ' '),
            None => forall|j: int|
                0 <= j && j + 2 <= s.len() ==> !(#[trigger] s[j] == ',' && s[j + 1] == ' '),
        },
    decreases s.len(),
{
    if s.len() >= 2 && !(s[0] == ',' && s[1] == ' ') {
        lemma_find_comma_space(s.skip(1));
        match find_comma_space(s.skip(1)) {
            Some(i) => {
                assert(s[i + 1] == s.skip(1)[i] && s[i + 2] == s.skip(1)[i + 1]);
                assert forall|j: int| 0 <= j < i + 1 implies !(#[trigger] s[j] == ',' && s[j + 1]
                    == ' ') by {
                    if j > 0 {
                        assert(s[j] == s.skip(1)[j - 1] && s[j + 1] == s.skip(1)[j]);
                    }
                }
            },
            None => {
                assert forall|j: int| 0 <= j && j + 2 <= s.len() implies !(#[trigger] s[j] == ','
                    && s[j + 1] == ' ') by {
                    if j > 0 {
                        assert(s[j] == s.skip(1)[j - 1] && s[j + 1] == s.skip(1)[j]);
                    }
                }
            },
        }
    }
}

/// The month number of a three-letter month name.
pub open spec fn month_num(p: Seq<char>) -> Option<int> {
    if p == "Jan"@ {
        Some(1int)
    } else if p == "Feb"@ {
        Some(2int)
    } else if p == "Mar"@ {
        Some(3int)
    } else if p == "Apr"@ {
        Some(4int)
    } else if p == "May"@ {
        Some(5int)
    } else if p == "Jun"@ {
        Some(6int)
    } else if p == "Jul"@ {
        Some(7int)
    } else if p == "Aug"@ {
        Some(8int)
    } else if p == "Sep"@ {
        Some(9int)
    } else if p == "Oct"@ {
        Some(10int)
    } else if p == "Nov"@ {
        Some(11int)
    } else if p == "Dec"@ {
        Some(12int)
    } else {
        None
    }
}

/// What parsing an HTTP timestamp yields: the epoch seconds of the date
/// after the weekday's `, `, or the message naming the first field that
/// fails.
pub open spec fn spec_parse_http_timestamp(s: Seq<char>) -> Result<int, Seq<char>> {
    match find_comma_space(s) {
        None => Err("invalid timestamp string"@),
        Some(i) => {
            let parts = ws_parts(s.skip(i + 2));
            if parts.len() != 5 {
                Err("invalid timestamp parts"@)
            } else {
                match spec_parse_u32(parts[0]) {
                    None => Err("day isn't a number"@),
                    Some(day) => match month_num(parts[1]) {
                        None => Err("month not valid string"@),
                        Some(mon) => match spec_parse_u32(parts[2]) {
                            None => Err("year isn't a number"@),
                            Some(year) => {
                                let t = parts[3];
                                match crate::data::spec_find_char(t, ':') {
                                    None => Err("invalid timestamp parts"@),
                                    Some(ci) => {
                                        let rest = t.skip(ci + 1);
                                        match crate::data::spec_find_char(rest, ':') {
                                            None => Err("invalid timestamp parts"@),
                                            Some(cj) => {
                                                match spec_parse_u32(t.take(ci)) {
                                                    None => Err("hour isn't a number"@),
                                                    Some(h) => match spec_parse_u32(rest.take(cj)) {
                                                        None => Err("minute isn't a number"@),
                                                        Some(mi) => match spec_parse_u32(
                                                            rest.skip(cj + 1),
                                                        ) {
                                                            None => Err("second isn't a number"@),
                                                            Some(sec) => {
                                                                if valid_civil(
                                                                    year,
                                                                    mon,
                                                                    day,
                                                                    h,
                                                                    mi,
                                                                    sec,
                                                                ) {
                                                                    Ok(
                                                                        spec_epoch_seconds(
                                                                            year,
                                                                            mon,
                                                                            day,
                                                                            h,
                                                                            mi,
                                                                            sec,
                                                                        ),
                                                                    )
                                                                } else {
                                                                    Err(
                                                                        "timestamp names no real moment"@,
                                                                    )
                                                                }
                                                            },
                                                        },
                                                    },
                                                }
                                            },
                                        }
                                    },
                                }
                            },
                        },
                    },
                }
            }
        },
    }
}

/// Position of the first `, ` at or after the start; `None` when absent.
#[verifier::loop_isolation(false)]
fn find_comma_space_at(s: &str, n: usize) -> (r: Option<usize>)
    requires
        n == s@.len(),
    ensures
        match find_comma_space(s@) {
            Some(i) => r == Some(i as usize),
            None => r is None,
        },
{
    proof {
        lemma_find_comma_space(s@);
    }
    let mut i: usize = 0;
    while n - i >= 2
        invariant
            0 <= i <= n,
            forall|j: int| 0 <= j < i ==> !(#[trigger] s@[j] == ',' && s@[j + 1] == ' '),
        decreases n - i,
    {
        if s.get_char(i) == ',' && s.get_char(i + 1) == ' ' {
            proof {
                let r = find_comma_space(s@);
                if r is None {
                    assert(!(s@[i as int] == ',' && s@[i as int + 1] == ' '));
                } else {
                    let k = r->Some_0;
                    if k < i {
                        assert(!(s@[k] == ',' && s@[k + 1] == ' '));
                    } else if k > i {
                        assert(!(s@[i as int] == ',' && s@[i as int + 1] == ' '));
                    }
                }
            }
            return Some(i);
        }
        i = i + 1;
    }
    proof {
        let r = find_comma_space(s@);
        if r is Some {
            let k = r->Some_0;
            if k < i {
                assert(!(s@[k] == ',' && s@[k + 1] == ' '));
            }
        }
    }
    None
}

/// Position of the first ASCII whitespace at or after `from`; `n` when
/// none remains.
#[verifier::loop_isolation(false)]
fn find_ws_from(s: &str, n: usize, from: usize) -> (r: usize)
    requires
        n == s@.len(),
        from <= n,
    ensures
        from <= r <= n,
        match find_ws(s@.skip(from as int)) {
            Some(i) => r == from + i && r < n && is_ascii_ws(s@[r as int]),
            None => r == n,
        },
{
    proof {
        lemma_find_ws(s@.skip(from as int));
    }
    let mut j = from;
    while j < n
        invariant
            from <= j <= n,
            forall|k: int| from <= k < j ==> !is_ascii_ws(s@[k]),
        decreases n - j,
    {
        let c = s.get_char(j);
        if c == ' ' || c == '\t' || c == '\n' || c == '\r' || c == '\u{c}' {
            proof {
                let r = find_ws(s@.skip(from as int));
                if r is None {
                    assert(!is_ascii_ws(s@.skip(from as int)[j - from]));
                } else {
                    let i = r->Some_0;
                    if from + i < j {
                        assert(s@[from + i] == s@.skip(from as int)[i]);
                    } else if from + i > j {
                        assert(!is_ascii_ws(s@.skip(from as int)[j - from]));
                    }
                }
            }
            return j;
        }
        j = j + 1;
    }
    proof {
        let r = find_ws(s@.skip(from as int));
        if r is Some {
            assert(s@[from + r->Some_0] == s@.skip(from as int)[r->Some_0]);
        }
    }
    n
}

/// The spec-level reading of collected fields.
pub open spec fn out_fields(v: Seq<String>) -> Seq<Seq<char>> {
    Seq::new(v.len(), |i: int| v[i]@)
}

/// Collected fields that read as a field sequence agree with it pointwise.
proof fn lemma_out_fields(v: Seq<String>, parts: Seq<Seq<char>>)
    requires
        out_fields(v) == parts.take(v.len() as int),
        v.len() <= parts.len(),
    ensures
        forall|i: int| 0 <= i < v.len() ==> v[i]@ == parts[i],
{
    assert forall|i: int| 0 <= i < v.len() implies v[i]@ == parts[i] by {
        assert(out_fields(v)[i] == v[i]@);
        assert(parts.take(v.len() as int)[i] == parts[i]);
    }
}

/// Splits on runs of ASCII whitespace, per [`ws_parts`].
pub fn ws_split(s: &str) -> (r: Vec<String>)
    ensures
        r@.len() == ws_parts(s@).len(),
        forall|i: int| 0 <= i < r@.len() ==> r@[i]@ == ws_parts(s@)[i],
{
    let n = s.unicode_len();
    let mut out: Vec<String> = Vec::new();
    let mut pos: usize = 0;
    let ghost total = ws_parts(s@);
    proof {
        assert(s@.skip(0) =~= s@);
    }
    loop
        invariant_except_break
            0 <= pos <= n,
            n == s@.len(),
            total == ws_parts(s@),
            out@.len() <= total.len(),
            total =~= out_fields(out@) + ws_parts(s@.skip(pos as int)),
            out_fields(out@) =~= total.take(out@.len() as int),
        ensures
            out@.len() == total.len(),
            forall|i: int| 0 <= i < out@.len() ==> out@[i]@ == total[i],
        decreases n - pos + 1,
    {
        if pos == n {
            proof {
                assert(s@.skip(pos as int).len() == 0);
                assert(ws_parts(s@.skip(pos as int)) =~= Seq::<Seq<char>>::empty());
                assert(total =~= out_fields(out@));
                lemma_out_fields(out@, total);
            }
            break ;
        }
        let ghost rem = s@.skip(pos as int);
        let c = s.get_char(pos);
        assert(c == rem[0]);
        if c == ' ' || c == '\t' || c == '\n' || c == '\r' || c == '\u{c}' {
            proof {
                assert(rem.skip(1) =~= s@.skip(pos as int + 1));
            }
            pos = pos + 1;
        } else {
            let e = find_ws_from(s, n, pos);
            let part = s.substring_char(pos, e);
            let ghost o0 = out@;
            out.push(part.to_owned());
            proof {
                lemma_find_ws(rem);
                if e < n {
                    assert(find_ws(rem) == Some(e - pos as int));
                } else {
                    assert(find_ws(rem) is None);
                }
                assert(part@ =~= rem.take(e - pos as int));
                if e == n {
                    assert(part@ =~= rem);
                    assert(ws_parts(rem) == seq![rem]);
                    assert(s@.skip(e as int).len() == 0);
                    assert(ws_parts(s@.skip(e as int)) =~= Seq::<Seq<char>>::empty());
                } else {
                    assert(ws_parts(rem) == seq![rem.take(e - pos as int)] + ws_parts(
                        rem.skip(e - pos as int),
                    ));
                    assert(rem.skip(e - pos as int) =~= s@.skip(e as int));
                }
                assert(out_fields(out@) =~= out_fields(o0) + seq![part@]);
                assert(total =~= out_fields(out@) + ws_parts(s@.skip(e as int)));
                assert(out_fields(out@) =~= total.take(out@.len() as int));
            }
            pos = e;
        }
    }
    out
}

/// Parses an HTTP date line (weekday, day, month name, year, time, zone)
/// into epoch seconds, per [`spec_parse_http_timestamp`]; the zone field
/// is required but read as GMT whatever it says.
#[verifier::rlimit(100)]
pub fn parse_http_timestamp(s: &str) -> (r: Result<u64, &'static str>)
    ensures
        match spec_parse_http_timestamp(s@) {
            Ok(v) => r matches Ok(u) && u == v,
            Err(msg) => r matches Err(e) && e@ == msg,
        },
{
    let n = s.unicode_len();
    let cs = match find_comma_space_at(s, n) {
        Some(i) => i,
        None => {
            return Err("invalid timestamp string");
        },
    };
    proof {
        lemma_find_comma_space(s@);
    }
    let date = s.substring_char(cs + 2, n);
    proof {
        assert(date@ =~= s@.skip(cs as int + 2));
    }
    let parts = ws_split(date);
    if parts.len() != 5 {
        return Err("invalid timestamp parts");
    }
    let day = match parse_u32(&parts[0]) {
        Some(d) => d,
        None => {
            return Err("day isn't a number");
        },
    };
    let mon: u32 = if crate::strutil::str_eq(parts[1].as_str(), "Jan") {
        1
    } else if crate::strutil::str_eq(parts[1].as_str(), "Feb") {
        2
    } else if crate::strutil::str_eq(parts[1].as_str(), "Mar") {
        3
    } else if crate::strutil::str_eq(parts[1].as_str(), "Apr") {
        4
    } else if crate::strutil::str_eq(parts[1].as_str(), "May") {
        5
    } else if crate::strutil::str_eq(parts[1].as_str(), "Jun") {
        6
    } else if crate::strutil::str_eq(parts[1].as_str(), "Jul") {
        7
    } else if crate::strutil::str_eq(parts[1].as_str(), "Aug") {
        8
    } else if crate::strutil::str_eq(parts[1].as_str(), "Sep") {
        9
    } else if crate::strutil::str_eq(parts[1].as_str(), "Oct") {
        10
    } else if crate::strutil::str_eq(parts[1].as_str(), "Nov") {
        11
    } else if crate::strutil::str_eq(parts[1].as_str(), "Dec") {
        12
    } else {
        return Err("month not valid string");
    };
    assert(month_num(parts@[1]@) == Some(mon as int));
    let year = match parse_u32(&parts[2]) {
        Some(y) => y,
        None => {
            return Err("year isn't a number");
        },
    };
    let t = &parts[3];
    let tn = t.as_str().unicode_len();
    let ci = find_char_from(t.as_str(), tn, 0, ':');
    proof {
        assert(t@.skip(0) =~= t@);
    }
    if ci == tn {
        return Err("invalid timestamp parts");
    }
    let cj = find_char_from(t.as_str(), tn, ci + 1, ':');
    if cj == tn {
        return Err("invalid timestamp parts");
    }
    let hp = t.as_str().substring_char(0, ci).to_owned();
    let mp = t.as_str().substring_char(ci + 1, cj).to_owned();
    let sp = t.as_str().substring_char(cj + 1, tn).to_owned();
    proof {
        let rest = t@.skip(ci as int + 1);
        assert(hp@ =~= t@.take(ci as int));
        assert(mp@ =~= rest.take(cj as int - (ci as int + 1)));
        assert(sp@ =~= rest.skip(cj as int - (ci as int + 1) + 1));
    }
    let h = match parse_u32(&hp) {
        Some(v) => v,
        None => {
            return Err("hour isn't a number");
        },
    };
    let mi = match parse_u32(&mp) {
        Some(v) => v,
        None => {
            return Err("minute isn't a number");
        },
    };
    let sec = match parse_u32(&sp) {
        Some(v) => v,
        None => {
            return Err("second isn't a number");
        },
    };
    seconds_from_epoch(year, mon, day, h, mi, sec)
}

/// The whole months of a year sum to the year's days.
proof fn lemma_dbm_total(y: int)
    ensures
        days_before_month(y, 13) == days_in_year(y),
{
    reveal_with_fuel(days_before_month, 14);
}

/// Month day counts accumulate monotonically.
proof fn lemma_dbm_mono(y: int, a: int, b: int)
    requires
        1 <= a <= b <= 13,
    ensures
        days_before_month(y, a) <= days_before_month(y, b),
    decreases b - a,
{
    if a < b {
        lemma_dbm_mono(y, a, b - 1);
    }
}

/// Year day counts peel from the front as well as from the back.
proof fn lemma_years_days_front(from: int, to: int)
    requires
        from < to,
    ensures
        years_days(from, to) == days_in_year(from) + years_days(from + 1, to),
    decreases to - from,
{
    if to > from + 1 {
        lemma_years_days_front(from, to - 1);
    } else {
        reveal_with_fuel(years_days, 3);
    }
}

/// Walking the year count of a day number built from whole years lands on
/// exactly those years.
proof fn lemma_year_of_add(from: int, y: int, r: int)
    requires
        from <= y,
        0 <= r < days_in_year(y),
    ensures
        spec_year_of(years_days(from, y) + r, from) == (y, r),
    decreases y - from,
{
    if y == from {
    } else {
        lemma_years_days_front(from, y);
        lemma_years_days_bound(from + 1, y);
        lemma_year_of_add(from + 1, y, r);
    }
}

/// Walking the month count of a day number built from whole months lands
/// on exactly those months.
proof fn lemma_month_of_add(y: int, k: int, m: int, r: int)
    requires
        1 <= k <= m <= 12,
        0 <= r < days_in_month(y, m),
    ensures
        spec_month_of((days_before_month(y, m) - days_before_month(y, k)) + r, k, y) == (m, r),
    decreases m - k,
{
    if k == m {
    } else {
        lemma_dbm_mono(y, k + 1, m);
        lemma_month_of_add(y, k + 1, m, r);
    }
}

/// The calendar conversions invert each other: splitting the epoch
/// seconds built from valid calendar fields gives those fields back, with
/// the weekday counted in days from the epoch's Thursday.
pub proof fn lemma_datetime_inverts_epoch(
    y: int,
    m: int,
    d: int,
    h: int,
    mi: int,
    s: int,
    n: u64,
)
    requires
        valid_civil(y, m, d, h, mi, s),
        n == spec_epoch_seconds(y, m, d, h, mi, s),
    ensures
        spec_datetime(n) == (
            y,
            m,
            d,
            h,
            mi,
            s,
            (years_days(1970, y) + days_before_month(y, m) + (d - 1)) % 7,
        ),
{
    let days = years_days(1970, y) + days_before_month(y, m) + (d - 1);
    let t = h * 3600 + mi * 60 + s;
    lemma_years_days_bound(1970, y);
    lemma_days_before_month_bound(y, m);
    assert(0 <= t < 86400);
    assert(n as int == days * 86400 + t);
    vstd::arithmetic::div_mod::lemma_fundamental_div_mod_converse(n as int, 86400, days, t);
    let r = days_before_month(y, m) + (d - 1);
    assert(0 <= r < days_in_year(y)) by {
        lemma_dbm_total(y);
        lemma_dbm_mono(y, m + 1, 13);
        assert(days_before_month(y, m + 1) == days_before_month(y, m) + days_in_month(y, m));
    }
    lemma_year_of_add(1970, y, r);
    assert(spec_year_of(days, 1970) == (y, r));
    assert(days_before_month(y, 1) == 0);
    lemma_month_of_add(y, 1, m, d - 1);
    assert(spec_month_of(r, 1, y) == (m, d - 1));
    vstd::arithmetic::div_mod::lemma_fundamental_div_mod_converse(t, 3600, h, mi * 60 + s);
    vstd::arithmetic::div_mod::lemma_fundamental_div_mod_converse(mi * 60 + s, 60, mi, s);
    vstd::arithmetic::div_mod::lemma_fundamental_div_mod_converse(t, 60, h * 60 + mi, s);
}

} // verus!
