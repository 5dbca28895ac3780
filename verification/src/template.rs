//! The placeholder-substitution mini-language: `${name}` or `${index}`
//! inside a template is replaced by what a [`Selectable`] container holds
//! under that name or index.

use vstd::prelude::*;
use crate::strutil::push_char;
use crate::data::spec_dec;

verus! {

/// `${` and `}` around a name: the form an unresolved placeholder keeps.
pub open spec fn placeholder(name: Seq<char>) -> Seq<char> {
    "${"@ + name + "}"@
}

/// The value of digits read forwards.
pub open spec fn digits_val(s: Seq<char>) -> int
    decreases s.len(),
{
    if s.len() == 0 {
        0
    } else {
        digits_val(s.drop_last()) * 10 + (s.last() as int - 48)
    }
}

/// A decimal digit.
pub open spec fn is_digit(c: char) -> bool {
    '0' <= c && c <= '9'
}

/// The digit run `usize` parsing reads: the string less a leading `+`.
pub open spec fn usize_digits(s: Seq<char>) -> Seq<char> {
    if s.len() > 0 && s[0] == '+' {
        s.skip(1)
    } else {
        s
    }
}

/// What `usize` parsing accepts: an optional `+`, then digits whose value
/// fits, as `str::parse` reads them.
pub open spec fn spec_parse_usize(s: Seq<char>) -> Option<int> {
    let digits = usize_digits(s);
    if digits.len() > 0 && (forall|i: int| 0 <= i < digits.len() ==> is_digit(#[trigger] digits[i]))
        && digits_val(digits) <= usize::MAX {
        Some(digits_val(digits))
    } else {
        None
    }
}

/// A longer digit run never has a smaller value.
pub proof fn lemma_digits_prefix_bound(s: Seq<char>, i: int)
    requires
        0 <= i <= s.len(),
        forall|j: int| 0 <= j < s.len() ==> is_digit(#[trigger] s[j]),
    ensures
        digits_val(s.take(i)) <= digits_val(s),
        digits_val(s) >= 0,
{
    lemma_digits_val_monotone(s, i);
}

/// A longer digit run never has a smaller value.
proof fn lemma_digits_val_monotone(s: Seq<char>, i: int)
    requires
        0 <= i <= s.len(),
        forall|j: int| 0 <= j < s.len() ==> is_digit(#[trigger] s[j]),
    ensures
        digits_val(s.take(i)) <= digits_val(s),
        digits_val(s) >= 0,
    decreases s.len() - i,
{
    if i == s.len() {
        assert(s.take(i) =~= s);
        lemma_digits_val_nonneg(s);
    } else {
        lemma_digits_val_monotone(s, i + 1);
        let t = s.take(i + 1);
        assert(t.drop_last() =~= s.take(i));
        assert(t.last() == s[i]);
        lemma_digits_val_nonneg(s.take(i));
        assert(digits_val(s.take(i)) <= digits_val(t));
    }
}

/// Digit runs have nonnegative values.
proof fn lemma_digits_val_nonneg(s: Seq<char>)
    requires
        forall|j: int| 0 <= j < s.len() ==> is_digit(#[trigger] s[j]),
    ensures
        digits_val(s) >= 0,
    decreases s.len(),
{
    if s.len() > 0 {
        assert(forall|j: int| 0 <= j < s.drop_last().len() ==> is_digit(
            #[trigger] s.drop_last()[j],
        ));
        lemma_digits_val_nonneg(s.drop_last());
    }
}

/// Parses a `usize` as `str::parse` would: optional `+`, then digits;
/// `None` on anything else or on overflow.
#[verifier::loop_isolation(false)]
pub fn parse_usize(s: &String) -> (r: Option<usize>)
    ensures
        match spec_parse_usize(s@) {
            Some(v) => r matches Some(u) && u == v,
            None => r is None,
        },
{
    let n = s.as_str().unicode_len();
    let start: usize = if n > 0 && s.as_str().get_char(0) == '+' {
        1
    } else {
        0
    };
    let ghost digits = usize_digits(s@);
    if n == start {
        assert(digits.len() == 0);
        return None;
    }
    let mut acc: usize = 0;
    let mut i = start;
    while i < n
        invariant
            start <= i <= n,
            n == s@.len(),
            digits == usize_digits(s@),
            digits.len() == n - start,
            (start == 1) == (s@.len() > 0 && s@[0] == '+'),
            forall|j: int| 0 <= j < i - start ==> is_digit(#[trigger] digits[j]),
            acc == digits_val(digits.take(i - start)),
        decreases n - i,
    {
        let c = s.as_str().get_char(i);
        assert(c == digits[i - start]);
        if !('0' <= c && c <= '9') {
            proof {
                if spec_parse_usize(s@) is Some {
                    assert(is_digit(digits[i - start]));
                }
            }
            return None;
        }
        let d = ((c as u32) - 48) as usize;
        if acc > (usize::MAX - d) / 10 {
            proof {
                let pre = digits.take(i - start + 1);
                assert(pre.drop_last() =~= digits.take(i - start));
                assert(pre.last() == digits[i - start]);
                assert(digits_val(pre) == acc * 10 + d);
                assert(digits_val(pre) > usize::MAX);
                if spec_parse_usize(s@) is Some {
                    lemma_digits_val_monotone(digits, i - start + 1);
                }
            }
            return None;
        }
        proof {
            let pre = digits.take(i - start + 1);
            assert(pre.drop_last() =~= digits.take(i - start));
            assert(pre.last() == digits[i - start]);
        }
        acc = acc * 10 + d;
        i = i + 1;
    }
    proof {
        assert(digits.take(n - start) =~= digits);
    }
    Some(acc)
}

/// A container the template language can draw values from, by index or
/// by name; a missing value reproduces the unresolved placeholder.
pub trait Selectable {
    /// What lookup by index yields.
    spec fn spec_by_id(&self, id: int) -> Seq<char>;

    /// What lookup by name yields.
    spec fn spec_by_name(&self, name: Seq<char>) -> Seq<char>;

    /// The value under an index.
    fn get_by_id(&self, id: &usize) -> (r: String)
        ensures
            r@ == self.spec_by_id(*id as int),
    ;

    /// The value under a name.
    fn get_by_name(&self, name: &String) -> (r: String)
        ensures
            r@ == self.spec_by_name(name@),
    ;
}

impl Selectable for Vec<String> {
    open spec fn spec_by_id(&self, id: int) -> Seq<char> {
        if 0 <= id < self@.len() {
            self@[id]@
        } else {
            placeholder(spec_dec(id))
        }
    }

    open spec fn spec_by_name(&self, name: Seq<char>) -> Seq<char> {
        match spec_parse_usize(name) {
            Some(id) => if 0 <= id < self@.len() {
                self@[id]@
            } else {
                placeholder(spec_dec(id))
            },
            None => placeholder(name),
        }
    }

    fn get_by_id(&self, id: &usize) -> (r: String) {
        if *id < self.len() {
            self[*id].clone()
        } else {
            let mut r = String::new();
            r.append("${");
            r.append(crate::data::u64_dec(*id as u64).as_str());
            r.append("}");
            r
        }
    }

    fn get_by_name(&self, name: &String) -> (r: String) {
        match parse_usize(name) {
            Some(id) => {
                if id < self.len() {
                    self[id].clone()
                } else {
                    let mut r = String::new();
                    r.append("${");
                    r.append(crate::data::u64_dec(id as u64).as_str());
                    r.append("}");
                    r
                }
            },
            None => {
                proof {
                    if spec_parse_usize(name@) is Some {
                        assert(false);
                    }
                }
                let mut r = String::new();
                r.append("${");
                r.append(name.as_str());
                r.append("}");
                r
            },
        }
    }
}

/// Lookup in a name/value pair sequence: the value of the first entry
/// under the name, or the unresolved placeholder.
pub open spec fn pairs_by_name(entries: Seq<(Seq<char>, Seq<char>)>, name: Seq<char>) -> Seq<
    char,
> {
    match crate::data::find_cookie(entries, name) {
        Some(i) => entries[i].1,
        None => placeholder(name),
    }
}

impl Selectable for Vec<(String, String)> {
    open spec fn spec_by_id(&self, id: int) -> Seq<char> {
        pairs_by_name(pair_view(self@), spec_dec(id))
    }

    open spec fn spec_by_name(&self, name: Seq<char>) -> Seq<char> {
        pairs_by_name(pair_view(self@), name)
    }

    fn get_by_id(&self, id: &usize) -> (r: String) {
        let name = crate::data::u64_dec(*id as u64);
        self.get_by_name(&name)
    }

    fn get_by_name(&self, name: &String) -> (r: String) {
        let ghost entries = pair_view(self@);
        let n = self.len();
        let mut i: usize = 0;
        while i < n
            invariant
                0 <= i <= n,
                n == self@.len(),
                entries == pair_view(self@),
                forall|j: int| 0 <= j < i ==> entries[j].0 != name@,
            decreases n - i,
        {
            if crate::strutil::str_eq(self[i].0.as_str(), name.as_str()) {
                proof {
                    crate::data::lemma_find_cookie(entries, name@);
                    let r = crate::data::find_cookie(entries, name@);
                    if r is None {
                        assert(entries[i as int].0 != name@);
                    } else {
                        let k = r->Some_0;
                        if k < i {
                            assert(entries[k].0 != name@);
                        } else if k > i {
                            assert(entries[i as int].0 != name@);
                        }
                    }
                }
                return self[i].1.clone();
            }
            i = i + 1;
        }
        proof {
            crate::data::lemma_find_cookie(entries, name@);
            let r = crate::data::find_cookie(entries, name@);
            if r is Some {
                assert(entries[r->Some_0].0 != name@);
            }
        }
        let mut r = String::new();
        r.append("${");
        r.append(name.as_str());
        r.append("}");
        r
    }
}

/// The pairs of a `(String, String)` vector, read at the spec level.
pub open spec fn pair_view(v: Seq<(String, String)>) -> Seq<(Seq<char>, Seq<char>)> {
    Seq::new(v.len(), |i: int| (v[i].0@, v[i].1@))
}

/// The template machine's three states.
#[derive(Clone, Copy, PartialEq, Eq, Structural, Debug)]
pub enum TState {
    /// Plain template text.
    InVal,
    /// A `$` was read; `{` would open a placeholder.
    VarStart,
    /// Inside `${...}`, collecting the name.
    InVar,
}

/// What interpolation emits for the rest of the template, from a machine
/// state and the name collected so far.  An unterminated placeholder at
/// the template's end emits nothing.
pub open spec fn spec_interp<A: Selectable + ?Sized>(
    a: &A,
    s: Seq<char>,
    st: TState,
    var: Seq<char>,
) -> Seq<char>
    decreases s.len(),
{
    if s.len() == 0 {
        Seq::empty()
    } else {
        let c = s[0];
        let rest = s.skip(1);
        if c == '$' {
            match st {
                TState::InVal => spec_interp(a, rest, TState::VarStart, var),
                TState::VarStart => seq!['$'] + spec_interp(a, rest, TState::VarStart, var),
                TState::InVar => spec_interp(a, rest, TState::InVar, var.push(c)),
            }
        } else if c == '{' {
            match st {
                TState::VarStart => spec_interp(a, rest, TState::InVar, var),
                TState::InVal => seq!['{'] + spec_interp(a, rest, TState::InVal, var),
                TState::InVar => spec_interp(a, rest, TState::InVar, var.push(c)),
            }
        } else if c == '}' {
            match st {
                TState::VarStart => seq!['$', '}'] + spec_interp(a, rest, TState::InVal, var),
                TState::InVal => seq!['}'] + spec_interp(a, rest, TState::InVal, var),
                TState::InVar => (match spec_parse_usize(var) {
                    Some(id) => a.spec_by_id(id),
                    None => a.spec_by_name(var),
                }) + spec_interp(a, rest, TState::InVal, Seq::empty()),
            }
        } else {
            match st {
                TState::InVal => seq![c] + spec_interp(a, rest, TState::InVal, var),
                TState::InVar => spec_interp(a, rest, TState::InVar, var.push(c)),
                TState::VarStart => seq!['$', c] + spec_interp(a, rest, TState::InVal, var),
            }
        }
    }
}

/// Substitutes every `${name}` placeholder in the template from the
/// container, per [`spec_interp`]; `$` and braces outside a placeholder
/// pass through, and an unterminated placeholder is dropped.
#[verifier::loop_isolation(false)]
pub fn interpolate<A: Selectable>(value: &String, args: &A) -> (r: String)
    ensures
        r@ == spec_interp(args, value@, TState::InVal, Seq::<char>::empty()),
{
    let s = value.as_str();
    let n = s.unicode_len();
    let mut out = String::new();
    let mut var = String::new();
    let mut st = TState::InVal;
    let mut i: usize = 0;
    proof {
        assert(s@.skip(0) =~= s@);
    }
    while i < n
        invariant
            0 <= i <= n,
            n == value@.len(),
            s@ == value@,
            spec_interp(args, value@, TState::InVal, Seq::<char>::empty()) == out@ + spec_interp(
                args,
                value@.skip(i as int),
                st,
                var@,
            ),
        decreases n - i,
    {
        let c = s.get_char(i);
        assert(c == value@.skip(i as int)[0]);
        if c == '$' {
            match st {
                TState::InVal => {
                    st = TState::VarStart;
                },
                TState::VarStart => {
                    push_char(&mut out, c);
                },
                TState::InVar => {
                    push_char(&mut var, c);
                },
            }
        } else if c == '{' {
            match st {
                TState::VarStart => {
                    st = TState::InVar;
                },
                TState::InVal => {
                    push_char(&mut out, c);
                },
                TState::InVar => {
                    push_char(&mut var, c);
                },
            }
        } else if c == '}' {
            match st {
                TState::VarStart => {
                    st = TState::InVal;
                    push_char(&mut out, '$');
                    push_char(&mut out, c);
                },
                TState::InVal => {
                    push_char(&mut out, c);
                },
                TState::InVar => {
                    st = TState::InVal;
                    let looked = match parse_usize(&var) {
                        Some(id) => args.get_by_id(&id),
                        None => {
                            proof {
                                if spec_parse_usize(var@) is Some {
                                    assert(false);
                                }
                            }
                            args.get_by_name(&var)
                        },
                    };
                    out.append(looked.as_str());
                    var = String::new();
                },
            }
        } else {
            match st {
                TState::InVal => {
                    push_char(&mut out, c);
                },
                TState::InVar => {
                    push_char(&mut var, c);
                },
                TState::VarStart => {
                    push_char(&mut out, '$');
                    push_char(&mut out, c);
                    st = TState::InVal;
                },
            }
        }
        proof {
            assert(value@.skip(i as int).skip(1) =~= value@.skip(i as int + 1));
        }
        i = i + 1;
    }
    out
}

/// What interpolation emits when the container is a name/value pair
/// sequence, stated over the sequence alone.
pub open spec fn spec_interp_pairs(
    entries: Seq<(Seq<char>, Seq<char>)>,
    s: Seq<char>,
    st: TState,
    var: Seq<char>,
) -> Seq<char>
    decreases s.len(),
{
    if s.len() == 0 {
        Seq::empty()
    } else {
        let c = s[0];
        let rest = s.skip(1);
        if c == '$' {
            match st {
                TState::InVal => spec_interp_pairs(entries, rest, TState::VarStart, var),
                TState::VarStart => seq!['$'] + spec_interp_pairs(entries, rest, TState::VarStart, var),
                TState::InVar => spec_interp_pairs(entries, rest, TState::InVar, var.push(c)),
            }
        } else if c == '{' {
            match st {
                TState::VarStart => spec_interp_pairs(entries, rest, TState::InVar, var),
                TState::InVal => seq!['{'] + spec_interp_pairs(entries, rest, TState::InVal, var),
                TState::InVar => spec_interp_pairs(entries, rest, TState::InVar, var.push(c)),
            }
        } else if c == '}' {
            match st {
                TState::VarStart => seq!['$', '}'] + spec_interp_pairs(
                    entries,
                    rest,
                    TState::InVal,
                    var,
                ),
                TState::InVal => seq!['}'] + spec_interp_pairs(entries, rest, TState::InVal, var),
                TState::InVar => (match spec_parse_usize(var) {
                    Some(id) => pairs_by_name(entries, spec_dec(id)),
                    None => pairs_by_name(entries, var),
                }) + spec_interp_pairs(entries, rest, TState::InVal, Seq::empty()),
            }
        } else {
            match st {
                TState::InVal => seq![c] + spec_interp_pairs(entries, rest, TState::InVal, var),
                TState::InVar => spec_interp_pairs(entries, rest, TState::InVar, var.push(c)),
                TState::VarStart => seq!['$', c] + spec_interp_pairs(
                    entries,
                    rest,
                    TState::InVal,
                    var,
                ),
            }
        }
    }
}

/// On a pair vector, interpolation reads exactly as the pair-sequence
/// statement of it.
pub proof fn lemma_interp_pairs(v: &Vec<(String, String)>, s: Seq<char>, st: TState, var: Seq<char>)
    ensures
        spec_interp(v, s, st, var) == spec_interp_pairs(pair_view(v@), s, st, var),
    decreases s.len(),
{
    if s.len() > 0 {
        let c = s[0];
        let rest = s.skip(1);
        if c == '$' {
            match st {
                TState::InVal => lemma_interp_pairs(v, rest, TState::VarStart, var),
                TState::VarStart => lemma_interp_pairs(v, rest, TState::VarStart, var),
                TState::InVar => lemma_interp_pairs(v, rest, TState::InVar, var.push(c)),
            }
        } else if c == '{' {
            match st {
                TState::VarStart => lemma_interp_pairs(v, rest, TState::InVar, var),
                TState::InVal => lemma_interp_pairs(v, rest, TState::InVal, var),
                TState::InVar => lemma_interp_pairs(v, rest, TState::InVar, var.push(c)),
            }
        } else if c == '}' {
            match st {
                TState::VarStart => lemma_interp_pairs(v, rest, TState::InVal, var),
                TState::InVal => lemma_interp_pairs(v, rest, TState::InVal, var),
                TState::InVar => lemma_interp_pairs(v, rest, TState::InVal, Seq::empty()),
            }
        } else {
            match st {
                TState::InVal => lemma_interp_pairs(v, rest, TState::InVal, var),
                TState::InVar => lemma_interp_pairs(v, rest, TState::InVar, var.push(c)),
                TState::VarStart => lemma_interp_pairs(v, rest, TState::InVal, var),
            }
        }
    }
}

} // verus!
