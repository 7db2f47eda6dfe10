//! File names: lossy UTF-8 decoding and the trimming the archive formats apply.

use vstd::prelude::*;
use vstd::string::*;
use vstd::utf8::*;

verus! {

/// What `String::from_utf8_lossy` makes of `bytes`.
pub uninterp spec fn utf8_lossy(bytes: Seq<u8>) -> Seq<char>;

/// `text` without the characters `c` at its end.
pub open spec fn trim_end_char(text: Seq<char>, c: char) -> Seq<char>
    decreases text.len(),
{
    if text.len() > 0 && text.last() == c {
        trim_end_char(text.drop_last(), c)
    } else {
        text
    }
}

/// `text` with `suffix` removed from its end as many times as it occurs there.
pub open spec fn trim_end_seq(text: Seq<char>, suffix: Seq<char>) -> Seq<char>
    decreases text.len(),
{
    if suffix.len() > 0 && text.len() >= suffix.len() && text.skip(text.len() - suffix.len()) == suffix {
        trim_end_seq(text.take(text.len() - suffix.len()), suffix)
    } else {
        text
    }
}

/// Trimming keeps a prefix of the text, what it keeps no longer ends with the character, and
/// every character it removed is that character.
pub proof fn lemma_trim_end_char(text: Seq<char>, c: char)
    ensures
        trim_end_char(text, c).len() <= text.len(),
        text.take(trim_end_char(text, c).len() as int) == trim_end_char(text, c),
        trim_end_char(text, c).len() == 0 || trim_end_char(text, c).last() != c,
        forall|i: int| trim_end_char(text, c).len() <= i < text.len() ==> #[trigger] text[i] == c,
    decreases text.len(),
{
    if text.len() > 0 && text.last() == c {
        lemma_trim_end_char(text.drop_last(), c);
        let t = trim_end_char(text.drop_last(), c);
        assert(text.take(t.len() as int) =~= text.drop_last().take(t.len() as int));
        assert forall|i: int| t.len() <= i < text.len() implies #[trigger] text[i] == c by {
            if i < text.len() - 1 {
                assert(text[i] == text.drop_last()[i]);
            }
        }
    } else {
        assert(text.take(text.len() as int) =~= text);
    }
}

/// Removing a suffix keeps a prefix of the text, what it keeps no longer ends with the
/// suffix, and what it removed is whole copies of the suffix, one after the other.
pub proof fn lemma_trim_end_seq(text: Seq<char>, suffix: Seq<char>)
    requires
        suffix.len() > 0,
    ensures
        trim_end_seq(text, suffix).len() <= text.len(),
        text.take(trim_end_seq(text, suffix).len() as int) == trim_end_seq(text, suffix),
        ({
            let t = trim_end_seq(text, suffix);
            !(t.len() >= suffix.len() && t.skip(t.len() - suffix.len()) == suffix)
        }),
        (text.len() - trim_end_seq(text, suffix).len()) % (suffix.len() as int) == 0,
        forall|i: int| trim_end_seq(text, suffix).len() <= i < text.len()
            ==> #[trigger] text[i] == suffix[(i - trim_end_seq(text, suffix).len()) % (suffix.len() as int)],
    decreases text.len(),
{
    if text.len() >= suffix.len() && text.skip(text.len() - suffix.len()) == suffix {
        let shorter = text.take(text.len() - suffix.len());
        lemma_trim_end_seq(shorter, suffix);
        let t = trim_end_seq(shorter, suffix);
        assert(text.take(t.len() as int) =~= shorter.take(t.len() as int));
        let n = suffix.len() as int;
        let d = shorter.len() - t.len();
        assert(text.len() - t.len() == d + n);
        assert((d + n) % n == 0) by (nonlinear_arith)
            requires
                d % n == 0,
                n > 0,
        ;
        assert forall|i: int| t.len() <= i < text.len() implies #[trigger] text[i] == suffix[(i - t.len()) % n] by {
            if i < shorter.len() {
                assert(text[i] == shorter[i]);
            } else {
                let q = i - shorter.len();
                assert(text[i] == text.skip(text.len() - n)[q]);
                assert((i - t.len()) % n == q) by (nonlinear_arith)
                    requires
                        i - t.len() == d + q,
                        d % n == 0,
                        0 <= q < n,
                        d >= 0,
                ;
            }
        }
    } else {
        assert(text.take(text.len() as int) =~= text);
        let n = suffix.len() as int;
        assert(0int % n == 0) by (nonlinear_arith)
            requires
                n > 0,
        ;
    }
}

/// Calls `String::from_utf8_lossy` and takes the owned string.
/// Trusted: its result is `utf8_lossy` of the bytes, and valid UTF-8 comes out decoded as it
/// is (the documentation says the input is returned unchanged when it is valid UTF-8).
#[verifier::external_body]
pub(crate) fn lossy_string(bytes: &[u8]) -> (r: String)
    ensures
        r@ == utf8_lossy(bytes@),
        valid_utf8(bytes@) ==> r@ == decode_utf8(bytes@),
{
    String::from_utf8_lossy(bytes).into_owned()
}

/// `text` without trailing NUL characters, as `trim_end_matches('\0')` gives it.
pub fn trim_nuls(text: &str) -> (r: String)
    ensures
        r@ == trim_end_char(text@, '\0'),
{
    let mut n = text.unicode_len();
    proof {
        assert(text@.take(n as int) =~= text@);
    }
    while n > 0 && text.get_char(n - 1) == '\0'
        invariant
            n <= text@.len(),
            trim_end_char(text@.take(n as int), '\0') == trim_end_char(text@, '\0'),
        decreases n,
    {
        proof {
            assert(text@.take(n as int).drop_last() =~= text@.take(n - 1));
        }
        n = n - 1;
    }
    proof {
        if n == text@.len() {
            assert(text@.take(n as int) =~= text@);
        }
    }
    String::from_str(text.substring_char(0, n))
}

/// The four characters `.pr3`.
pub open spec fn pr3_suffix() -> Seq<char> {
    seq!['.', 'p', 'r', '3']
}

/// `text` with every trailing `.pr3` removed, as `trim_end_matches(".pr3")` gives it.
pub fn trim_pr3(text: &str) -> (r: String)
    ensures
        r@ == trim_end_seq(text@, pr3_suffix()),
{
    let mut n = text.unicode_len();
    proof {
        assert(text@.take(n as int) =~= text@);
    }
    while n >= 4 && text.get_char(n - 4) == '.' && text.get_char(n - 3) == 'p' && text.get_char(n - 2) == 'r'
        && text.get_char(n - 1) == '3'
        invariant
            n <= text@.len(),
            trim_end_seq(text@.take(n as int), pr3_suffix()) == trim_end_seq(text@, pr3_suffix()),
        decreases n,
    {
        proof {
            let t = text@.take(n as int);
            assert(t.skip(t.len() - 4) =~= pr3_suffix());
            assert(t.take(t.len() - 4) =~= text@.take(n - 4));
        }
        n = n - 4;
    }
    proof {
        let t = text@.take(n as int);
        if n >= 4 {
            assert(t.skip(t.len() - 4) != pr3_suffix()) by {
                if t.skip(t.len() - 4) == pr3_suffix() {
                    assert(t.skip(t.len() - 4)[0] == '.');
                    assert(t.skip(t.len() - 4)[1] == 'p');
                    assert(t.skip(t.len() - 4)[2] == 'r');
                    assert(t.skip(t.len() - 4)[3] == '3');
                }
            }
        }
        if n == text@.len() {
            assert(text@.take(n as int) =~= text@);
        }
    }
    String::from_str(text.substring_char(0, n))
}

} // verus!
