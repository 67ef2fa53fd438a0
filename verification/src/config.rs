//! Settings read from the environment: a port given as decimal text.
use vstd::prelude::*;
use crate::text::chars_of;

verus! {

broadcast use vstd::string::group_string_axioms;

/// Every character is an ASCII digit.
pub open spec fn all_digits(s: Seq<char>) -> bool {
    forall|i: int| 0 <= i < s.len() ==> '0' <= #[trigger] s[i] && s[i] <= '9'
}

/// The number that a text of decimal digits stands for.
pub open spec fn digits_value(s: Seq<char>) -> int
    decreases s.len(),
{
    if s.len() == 0 {
        0
    } else {
        digits_value(s.drop_last()) * 10 + ((s.last() as int) - ('0' as int))
    }
}

/// What `str::parse::<u16>` reads from a text: an optional `+` followed by
/// one or more ASCII digits, for a value of at most 65535; `None` for
/// anything else.
pub open spec fn parsed_port(s: Seq<char>) -> Option<u16> {
    let d = if s.len() > 0 && s[0] == '+' { s.drop_first() } else { s };
    if d.len() > 0 && all_digits(d) && digits_value(d) <= 65535 {
        Some(digits_value(d) as u16)
    } else {
        None
    }
}

/// A longer text of digits stands for no smaller a number.
proof fn lemma_digits_prefix(d: Seq<char>, k: int)
    requires
        all_digits(d),
        0 <= k <= d.len(),
    ensures
        0 <= digits_value(d.subrange(0, k)) <= digits_value(d),
    decreases d.len(),
{
    if k == d.len() {
        assert(d.subrange(0, k) =~= d);
        if d.len() > 0 {
            lemma_digits_prefix(d.drop_last(), d.len() - 1);
            assert(d.drop_last().subrange(0, d.len() - 1) =~= d.drop_last());
            assert('0' <= d[d.len() - 1]);
        }
    } else {
        lemma_digits_prefix(d.drop_last(), k);
        assert(d.drop_last().subrange(0, k) =~= d.subrange(0, k));
        lemma_digits_prefix(d.drop_last(), d.len() - 1);
        assert(d.drop_last().subrange(0, d.len() - 1) =~= d.drop_last());
        assert('0' <= d[d.len() - 1]);
    }
}

/// The port set by an environment value: the value read as `u16` when it
/// is one, else `default_port` (also when there is no value).
pub fn port_setting(value: Option<String>, default_port: u16) -> (r: u16)
    ensures
        r == match value {
            Some(v) => match parsed_port(v@) {
                Some(p) => p,
                None => default_port,
            },
            None => default_port,
        },
{
    let text = match value {
        Some(v) => v,
        None => return default_port,
    };
    let cs = chars_of(text.as_str());
    let ghost s = text@;
    let start: usize = if cs.len() > 0 && cs[0] == '+' { 1 } else { 0 };
    let ghost d = s.subrange(start as int, s.len() as int);
    assert(d =~= (if s.len() > 0 && s[0] == '+' { s.drop_first() } else { s }));
    if start == cs.len() {
        assert(d.len() == 0);
        assert(parsed_port(s) is None);
        return default_port;
    }
    let mut acc: u32 = 0;
    let mut i: usize = start;
    while i < cs.len()
        invariant
            value == Some(text),
            text@ == s,
            cs@ == s,
            start <= i <= cs.len(),
            d == s.subrange(start as int, s.len() as int),
            d == (if s.len() > 0 && s[0] == '+' { s.drop_first() } else { s }),
            d.len() > 0,
            forall|k: int| 0 <= k < i - start ==> '0' <= #[trigger] d[k] && d[k] <= '9',
            acc == digits_value(d.subrange(0, i - start)),
            acc <= 65535,
        decreases cs.len() - i,
    {
        let c = cs[i];
        assert(d[i - start] == c);
        if !('0' <= c && c <= '9') {
            assert(!all_digits(d));
            assert(parsed_port(s) is None);
            return default_port;
        }
        assert(d.subrange(0, i - start + 1).drop_last() =~= d.subrange(0, i - start));
        assert(d.subrange(0, i - start + 1).last() == c);
        let ghost before = acc;
        acc = acc * 10 + (c as u32 - '0' as u32);
        assert(acc == digits_value(d.subrange(0, i - start + 1)));
        if acc > 65535 {
            proof {
                if all_digits(d) {
                    lemma_digits_prefix(d, i - start + 1);
                }
                assert(parsed_port(s) is None);
            }
            return default_port;
        }
        i = i + 1;
    }
    assert(d.subrange(0, d.len() as int) =~= d);
    acc as u16
}

} // verus!
