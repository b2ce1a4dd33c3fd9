//! The escape decoder: reverses percent-encoding of a fixed set of
//! reserved characters.
//!
//! Decoding scans left to right with a three-character window.  When
//! the window is one of the table's escapes the decoded character is
//! emitted and the whole window is consumed; otherwise the first
//! character is emitted and the scan advances by one.  Decoding is
//! total: anything that is not an escape from the table, including a
//! truncated trailing fragment such as `%3`, passes through literally.

use crate::chars::chars_of;
use vstd::prelude::*;

verus! {

/// The fixed escape table: the character that `%` followed by these
/// two characters stands for, if any.
pub open spec fn escape_char(a: char, b: char) -> Option<char> {
    if a == '3' && b == 'B' {
        Some(';')
    } else if a == '3' && b == 'C' {
        Some('<')
    } else if a == '3' && b == 'D' {
        Some('=')
    } else if a == '3' && b == 'E' {
        Some('>')
    } else if a == '2' && b == '0' {
        Some(' ')
    } else if a == '2' && b == '2' {
        Some('"')
    } else if a == '2' && b == 'F' {
        Some('/')
    } else if a == '2' && b == 'C' {
        Some(',')
    } else if a == '5' && b == 'B' {
        Some('[')
    } else if a == '5' && b == 'D' {
        Some(']')
    } else {
        None
    }
}

/// Whether one of the table's three-character escapes starts at
/// position `i` of `s`.
pub open spec fn escape_at(s: Seq<char>, i: int) -> bool {
    &&& 0 <= i
    &&& i + 3 <= s.len()
    &&& s[i] == '%'
    &&& escape_char(s[i + 1], s[i + 2]) is Some
}

/// What decoding returns: every escape of the table collapses to its
/// character, everything else passes through.
pub open spec fn decode_spec(s: Seq<char>) -> Seq<char>
    decreases s.len(),
{
    if s.len() == 0 {
        Seq::empty()
    } else if escape_at(s, 0) {
        seq![escape_char(s[1], s[2])->Some_0] + decode_spec(s.skip(3))
    } else {
        seq![s[0]] + decode_spec(s.skip(1))
    }
}

fn escape_char_exec(a: char, b: char) -> (r: Option<char>)
    ensures
        r == escape_char(a, b),
{
    if a == '3' && b == 'B' {
        Some(';')
    } else if a == '3' && b == 'C' {
        Some('<')
    } else if a == '3' && b == 'D' {
        Some('=')
    } else if a == '3' && b == 'E' {
        Some('>')
    } else if a == '2' && b == '0' {
        Some(' ')
    } else if a == '2' && b == '2' {
        Some('"')
    } else if a == '2' && b == 'F' {
        Some('/')
    } else if a == '2' && b == 'C' {
        Some(',')
    } else if a == '5' && b == 'B' {
        Some('[')
    } else if a == '5' && b == 'D' {
        Some(']')
    } else {
        None
    }
}

/// Decodes every escape of the table in `input` and passes everything
/// else through unchanged.
pub fn decode(input: &str) -> (r: String)
    ensures
        r@ == decode_spec(input@),
{
    let v = chars_of(input);
    let ghost s = input@;
    let n = v.len();
    let mut r = String::new();
    let mut i: usize = 0;
    proof {
        assert(s.skip(0) =~= s);
        assert(r@ + decode_spec(s) =~= decode_spec(s));
    }
    while i < n
        invariant
            i <= n,
            n == s.len(),
            v@ == s,
            decode_spec(s) == r@ + decode_spec(s.skip(i as int)),
        decreases n - i,
    {
        let ghost rest = s.skip(i as int);
        proof {
            assert(rest.len() == s.len() - i);
            assert(forall|k: int| 0 <= k < rest.len() ==> rest[k] == s[i + k]);
        }
        if n - i >= 3 && v[i] == '%' {
            let e = escape_char_exec(v[i + 1], v[i + 2]);
            match e {
                Some(d) => {
                    r.push(d);
                    i = i + 3;
                    proof {
                        assert(escape_at(rest, 0));
                        assert(rest.skip(3) =~= s.skip(i as int));
                        assert(r@ + decode_spec(s.skip(i as int)) =~= decode_spec(s));
                    }
                },
                None => {
                    r.push(v[i]);
                    i = i + 1;
                    proof {
                        assert(!escape_at(rest, 0));
                        assert(rest.skip(1) =~= s.skip(i as int));
                        assert(r@ + decode_spec(s.skip(i as int)) =~= decode_spec(s));
                    }
                },
            }
        } else {
            r.push(v[i]);
            i = i + 1;
            proof {
                assert(!escape_at(rest, 0));
                assert(rest.skip(1) =~= s.skip(i as int));
                assert(r@ + decode_spec(s.skip(i as int)) =~= decode_spec(s));
            }
        }
    }
    proof {
        assert(s.skip(n as int) =~= Seq::empty());
        assert(r@ =~= decode_spec(s));
    }
    r
}

/// Decoding text that contains no escape from the table returns it
/// unchanged.
pub proof fn lemma_decode_no_escape(s: Seq<char>)
    requires
        forall|i: int| !escape_at(s, i),
    ensures
        decode_spec(s) == s,
    decreases s.len(),
{
    if s.len() == 0 {
        assert(decode_spec(s) =~= s);
    } else {
        assert(!escape_at(s, 0));
        let d = s.skip(1);
        assert forall|i: int| !escape_at(d, i) by {
            if 0 <= i && i + 3 <= d.len() {
                assert(d[i] == s[i + 1]);
                assert(d[i + 1] == s[i + 2]);
                assert(d[i + 2] == s[i + 3]);
                assert(!escape_at(s, i + 1));
            }
        }
        lemma_decode_no_escape(d);
        assert(decode_spec(s) =~= seq![s[0]] + d);
        assert(seq![s[0]] + d =~= s);
    }
}

/// Decoding never lengthens its input.
pub proof fn lemma_decode_shrinks(s: Seq<char>)
    ensures
        decode_spec(s).len() <= s.len(),
    decreases s.len(),
{
    if s.len() == 0 {
    } else if escape_at(s, 0) {
        lemma_decode_shrinks(s.skip(3));
    } else {
        lemma_decode_shrinks(s.skip(1));
    }
}

} // verus!
