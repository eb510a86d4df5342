//! Character-level text primitives: lowercasing, whitespace classification,
//! string equality, strict-prefix tests, and whitespace tokenization.
use vstd::prelude::*;
use vstd::string::StrSliceExecFns;
use vstd::string::StringExecFns;

verus! {

/// What `str::to_lowercase` returns for a given sequence of characters.
pub uninterp spec fn lower_of(s: Seq<char>) -> Seq<char>;

/// Whether a character has Unicode's White_Space property, the set that
/// `char::is_whitespace` tests: the ASCII whitespace controls and the space,
/// next line, no-break space, ogham space mark, the en-quad through
/// hair-space range, the line and paragraph separators, the narrow no-break
/// and medium mathematical spaces, and the ideographic space.
pub open spec fn is_space(c: char) -> bool {
    ||| c == '\u{0009}'
    ||| c == '\u{000A}'
    ||| c == '\u{000B}'
    ||| c == '\u{000C}'
    ||| c == '\u{000D}'
    ||| c == '\u{0020}'
    ||| c == '\u{0085}'
    ||| c == '\u{00A0}'
    ||| c == '\u{1680}'
    ||| c == '\u{2000}'
    ||| c == '\u{2001}'
    ||| c == '\u{2002}'
    ||| c == '\u{2003}'
    ||| c == '\u{2004}'
    ||| c == '\u{2005}'
    ||| c == '\u{2006}'
    ||| c == '\u{2007}'
    ||| c == '\u{2008}'
    ||| c == '\u{2009}'
    ||| c == '\u{200A}'
    ||| c == '\u{2028}'
    ||| c == '\u{2029}'
    ||| c == '\u{202F}'
    ||| c == '\u{205F}'
    ||| c == '\u{3000}'
}

/// Relies on `str::to_lowercase` of std: the lowercase form of a string is a
/// function of its characters alone, the same in every process.
pub assume_specification[ str::to_lowercase ](s: &str) -> (r: String)
    ensures
        r@ == lower_of(s@),
;

/// Relies on `char::is_whitespace` of std: it returns whether the character
/// has the Unicode White_Space property, which `is_space` spells out.
pub assume_specification[ char::is_whitespace ](c: char) -> (r: bool)
    ensures
        r == is_space(c),
;

/// A keyword matches a query as a strict prefix: the query starts the keyword
/// but the two differ.
pub open spec fn strict_prefix_match(q: Seq<char>, k: Seq<char>) -> bool {
    q.is_prefix_of(k) && k != q
}

/// Character-wise string equality.
pub fn str_eq(a: &str, b: &str) -> (r: bool)
    ensures
        r == (a@ == b@),
{
    let alen = a.unicode_len();
    let blen = b.unicode_len();
    if alen != blen {
        return false;
    }
    let mut i: usize = 0;
    while i < alen
        invariant
            i <= alen,
            alen == a@.len(),
            alen == b@.len(),
            forall|j: int| 0 <= j < i ==> a@[j] == b@[j],
        decreases alen - i,
    {
        if a.get_char(i) != b.get_char(i) {
            return false;
        }
        i += 1;
    }
    proof {
        assert(a@ =~= b@);
    }
    true
}

/// Whether `q` is a strict prefix of `k`.
pub fn str_strict_prefix(q: &str, k: &str) -> (r: bool)
    ensures
        r == strict_prefix_match(q@, k@),
{
    let qlen = q.unicode_len();
    let klen = k.unicode_len();
    if qlen >= klen {
        proof {
            if strict_prefix_match(q@, k@) {
                assert(q@ =~= k@.subrange(0, q@.len() as int));
                assert(q@ =~= k@);
            }
        }
        return false;
    }
    let mut i: usize = 0;
    while i < qlen
        invariant
            i <= qlen,
            qlen == q@.len(),
            klen == k@.len(),
            qlen < klen,
            forall|j: int| 0 <= j < i ==> q@[j] == k@[j],
        decreases qlen - i,
    {
        if q.get_char(i) != k.get_char(i) {
            proof {
                if q@.is_prefix_of(k@) {
                    assert(q@ =~= k@.subrange(0, q@.len() as int));
                    assert(q@[i as int] == k@.subrange(0, q@.len() as int)[i as int]);
                }
            }
            return false;
        }
        i += 1;
    }
    proof {
        assert(q@ =~= k@.subrange(0, q@.len() as int));
        assert(q@.len() < k@.len());
    }
    true
}

/// The tokenizer state after reading the first `i` characters of `s`: the
/// tokens already closed, and the run of non-space characters still open.
pub open spec fn split_state(s: Seq<char>, i: int) -> (Seq<Seq<char>>, Seq<char>)
    decreases i,
{
    if i <= 0 {
        (Seq::empty(), Seq::empty())
    } else {
        let prev = split_state(s, i - 1);
        let c = s[i - 1];
        if is_space(c) {
            if prev.1.len() == 0 {
                prev
            } else {
                (prev.0.push(prev.1), Seq::empty())
            }
        } else {
            (prev.0, prev.1.push(c))
        }
    }
}

/// The whitespace-separated tokens of `s`: maximal runs of non-space
/// characters, in order, with empty runs discarded.
pub open spec fn split_ws(s: Seq<char>) -> Seq<Seq<char>> {
    let end = split_state(s, s.len() as int);
    if end.1.len() == 0 {
        end.0
    } else {
        end.0.push(end.1)
    }
}

/// Split a string into its whitespace-separated tokens.
pub fn split_whitespace_tokens(s: &str) -> (r: Vec<String>)
    ensures
        r.deep_view() == split_ws(s@),
{
    let n = s.unicode_len();
    let mut out: Vec<String> = Vec::new();
    let mut i: usize = 0;
    let mut start: usize = 0;
    let mut in_token: bool = false;
    while i < n
        invariant
            i <= n,
            n == s@.len(),
            in_token ==> start < i,
            split_state(s@, i as int) == (
                out.deep_view(),
                if in_token {
                    s@.subrange(start as int, i as int)
                } else {
                    Seq::<char>::empty()
                },
            ),
        decreases n - i,
    {
        let c = s.get_char(i);
        if c.is_whitespace() {
            if in_token {
                let tok = String::from_str(s.substring_char(start, i));
                let ghost prev_out = out.deep_view();
                out.push(tok);
                proof {
                    assert(out.deep_view() =~= prev_out.push(s@.subrange(
                        start as int,
                        i as int,
                    )));
                }
                in_token = false;
            }
        } else {
            if !in_token {
                start = i;
                in_token = true;
            }
            proof {
                assert(s@.subrange(start as int, i as int + 1) =~= s@.subrange(
                    start as int,
                    i as int,
                ).push(s@[i as int]));
            }
        }
        i += 1;
    }
    if in_token {
        let tok = String::from_str(s.substring_char(start, n));
        let ghost prev_out = out.deep_view();
        out.push(tok);
        proof {
            assert(out.deep_view() =~= prev_out.push(s@.subrange(start as int, n as int)));
        }
    }
    out
}

} // verus!
