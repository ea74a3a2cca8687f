//! The chat proxy's rewriting rule: every Boguscoin address in a line is
//! replaced by Tony's address. An address is a word (a run of characters
//! between spaces, or between a space and an end of the line) that starts
//! with `7` and has 26 to 35 characters, all ASCII letters or digits.
use vstd::prelude::*;

use crate::text::{chars_of, push_char};

verus! {

pub open spec fn ascii_alphanumeric(c: char) -> bool {
    ('a' <= c && c <= 'z') || ('A' <= c && c <= 'Z') || ('0' <= c && c <= '9')
}

/// A Boguscoin address.
pub open spec fn is_boguscoin(w: Seq<char>) -> bool {
    &&& 26 <= w.len() <= 35
    &&& w[0] == '7'
    &&& forall|i: int| 1 <= i < w.len() ==> ascii_alphanumeric(#[trigger] w[i])
}

/// Tony's address.
pub open spec fn tony() -> Seq<char> {
    seq![
        '7', 'Y', 'W', 'H', 'M', 'f', 'k', '9', 'J', 'Z', 'e', '0', 'L', 'M', '0', 'g', '1',
        'Z', 'a', 'u', 'H', 'u', 'i', 'S', 'x', 'h', 'I',
    ]
}

/// A word after rewriting.
pub open spec fn rewrite_word(w: Seq<char>) -> Seq<char> {
    if is_boguscoin(w) {
        tony()
    } else {
        w
    }
}

/// The position of the first space.
pub open spec fn first_space(s: Seq<char>) -> Option<int>
    decreases s.len(),
{
    if s.len() == 0 {
        None
    } else if s[0] == ' ' {
        Some(0)
    } else {
        match first_space(s.subrange(1, s.len() as int)) {
            Some(k) => Some(k + 1),
            None => None,
        }
    }
}

/// A line after rewriting: the words, split at each space, are rewritten
/// one by one and joined again by the same spaces.
pub open spec fn rewrite(s: Seq<char>) -> Seq<char>
    decreases s.len(),
{
    match first_space(s) {
        None => rewrite_word(s),
        Some(k) => if 0 <= k < s.len() {
            rewrite_word(s.subrange(0, k)) + seq![' '] + rewrite(s.subrange(k + 1, s.len() as int))
        } else {
            s
        },
    }
}

proof fn lemma_first_space_bounds(s: Seq<char>)
    ensures
        first_space(s) matches Some(k) ==> 0 <= k < s.len() && s[k] == ' ' && forall|i: int|
            0 <= i < k ==> s[i] != ' ',
        first_space(s) is None ==> forall|i: int| 0 <= i < s.len() ==> s[i] != ' ',
    decreases s.len(),
{
    if s.len() > 0 && s[0] != ' ' {
        let t = s.subrange(1, s.len() as int);
        lemma_first_space_bounds(t);
        assert forall|i: int| 1 <= i < s.len() implies s[i] == t[i - 1] by {}
    }
}

proof fn lemma_first_space_after_word(w: Seq<char>, r: Seq<char>)
    requires
        forall|i: int| 0 <= i < w.len() ==> w[i] != ' ',
    ensures
        first_space(w + seq![' '] + r) == Some(w.len() as int),
    decreases w.len(),
{
    let s = w + seq![' '] + r;
    if w.len() > 0 {
        let w2 = w.subrange(1, w.len() as int);
        lemma_first_space_after_word(w2, r);
        assert(s.subrange(1, s.len() as int) =~= w2 + seq![' '] + r);
    }
}

proof fn lemma_rewrite_word_then_rest(w: Seq<char>, r: Seq<char>)
    requires
        forall|i: int| 0 <= i < w.len() ==> w[i] != ' ',
    ensures
        rewrite(w + seq![' '] + r) == rewrite_word(w) + seq![' '] + rewrite(r),
{
    let s = w + seq![' '] + r;
    lemma_first_space_after_word(w, r);
    assert(s.subrange(0, w.len() as int) =~= w);
    assert(s.subrange(w.len() as int + 1, s.len() as int) =~= r);
}

proof fn lemma_rewrite_single_word(w: Seq<char>)
    requires
        forall|i: int| 0 <= i < w.len() ==> w[i] != ' ',
    ensures
        rewrite(w) == rewrite_word(w),
{
    lemma_first_space_bounds(w);
    if let Some(k) = first_space(w) {
        assert(w[k] == ' ');
    }
}

fn is_ascii_alphanumeric(c: char) -> (b: bool)
    ensures
        b == ascii_alphanumeric(c),
{
    ('a' <= c && c <= 'z') || ('A' <= c && c <= 'Z') || ('0' <= c && c <= '9')
}

fn word_is_boguscoin(w: &Vec<char>) -> (b: bool)
    ensures
        b == is_boguscoin(w@),
{
    if w.len() < 26 || w.len() > 35 {
        return false;
    }
    if w[0] != '7' {
        return false;
    }
    let mut i: usize = 1;
    while i < w.len()
        invariant
            1 <= i <= w@.len(),
            forall|k: int| 1 <= k < i ==> ascii_alphanumeric(#[trigger] w@[k]),
        decreases w.len() - i,
    {
        if !is_ascii_alphanumeric(w[i]) {
            return false;
        }
        i = i + 1;
    }
    true
}

fn push_word(out: &mut String, w: &Vec<char>)
    ensures
        final(out)@ == old(out)@ + rewrite_word(w@),
{
    if word_is_boguscoin(w) {
        let t = "7YWHMfk9JZe0LM0g1ZauHuiSxhI";
        proof {
            reveal_strlit("7YWHMfk9JZe0LM0g1ZauHuiSxhI");
            assert(t@ =~= tony());
        }
        crate::text::push_str(out, t);
    } else {
        let mut i: usize = 0;
        while i < w.len()
            invariant
                i <= w@.len(),
                out@ == old(out)@ + w@.subrange(0, i as int),
            decreases w.len() - i,
        {
            push_char(out, w[i]);
            i = i + 1;
            assert(out@ =~= old(out)@ + w@.subrange(0, i as int));
        }
        assert(w@.subrange(0, w@.len() as int) =~= w@);
    }
}

/// Replaces every Boguscoin address in `line` by Tony's address.
pub fn rewrite_addresses(line: &str) -> (r: String)
    ensures
        r@ == rewrite(line@),
{
    let cs = chars_of(line);
    let n = cs.len();
    let mut out = String::new();
    let mut word: Vec<char> = Vec::new();
    let mut i: usize = 0;
    proof {
        assert(line@.subrange(0, n as int) =~= line@);
        assert(word@ + line@.subrange(0, n as int) =~= line@);
    }
    while i < n
        invariant
            n == cs@.len(),
            cs@ == line@,
            i <= n,
            forall|k: int| 0 <= k < word@.len() ==> word@[k] != ' ',
            out@ + rewrite(word@ + line@.subrange(i as int, n as int)) == rewrite(line@),
        decreases n - i,
    {
        let c = cs[i];
        let ghost rest = line@.subrange(i + 1, n as int);
        proof {
            assert(line@.subrange(i as int, n as int) =~= seq![c] + rest);
        }
        if c == ' ' {
            proof {
                assert(word@ + line@.subrange(i as int, n as int) =~= word@ + seq![' '] + rest);
                lemma_rewrite_word_then_rest(word@, rest);
            }
            push_word(&mut out, &word);
            push_char(&mut out, ' ');
            word = Vec::new();
            proof {
                assert(word@ + rest =~= rest);
            }
        } else {
            let ghost before = word@;
            word.push(c);
            proof {
                assert(before + line@.subrange(i as int, n as int) =~= word@ + rest);
            }
        }
        i = i + 1;
    }
    proof {
        assert(word@ + line@.subrange(n as int, n as int) =~= word@);
        lemma_rewrite_single_word(word@);
    }
    push_word(&mut out, &word);
    out
}

proof fn lemma_tony_is_address()
    ensures
        is_boguscoin(tony()),
        forall|i: int| 0 <= i < tony().len() ==> tony()[i] != ' ',
{
}

proof fn lemma_rewrite_word_no_space(w: Seq<char>)
    requires
        forall|i: int| 0 <= i < w.len() ==> w[i] != ' ',
    ensures
        forall|i: int| 0 <= i < rewrite_word(w).len() ==> rewrite_word(w)[i] != ' ',
        rewrite_word(rewrite_word(w)) == rewrite_word(w),
{
    lemma_tony_is_address();
}

/// Law: rewriting is idempotent: a rewritten line has no address left
/// other than Tony's, so rewriting it again changes nothing.
pub proof fn law_rewrite_idempotent(s: Seq<char>)
    ensures
        rewrite(rewrite(s)) == rewrite(s),
    decreases s.len(),
{
    lemma_first_space_bounds(s);
    match first_space(s) {
        None => {
            lemma_rewrite_word_no_space(s);
            lemma_rewrite_single_word(rewrite_word(s));
        },
        Some(k) => {
            let w = s.subrange(0, k);
            let r = s.subrange(k + 1, s.len() as int);
            law_rewrite_idempotent(r);
            lemma_rewrite_word_no_space(w);
            lemma_rewrite_word_then_rest(rewrite_word(w), rewrite(r));
        },
    }
}

/// Law: a word (a run without spaces) is replaced by Tony's address exactly
/// when it is `7` followed by 25 to 34 characters, each an ASCII letter `a` to
/// `z` or `A` to `Z` or a digit `0` to `9`; any other word is passed on as it
/// is.
pub proof fn law_word_rewrite(w: Seq<char>)
    requires
        forall|i: int| 0 <= i < w.len() ==> w[i] != ' ',
    ensures
        rewrite(w) == if 26 <= w.len() <= 35 && w[0] == '7' && (forall|i: int|
            1 <= i < w.len() ==> ('a' <= #[trigger] w[i] <= 'z' || 'A' <= w[i] <= 'Z' || '0'
                <= w[i] <= '9')) {
            tony()
        } else {
            w
        },
{
    lemma_rewrite_single_word(w);
}

/// Law: within a line, an address between spaces is replaced by Tony's
/// address and the text around it is rewritten on its own.
pub proof fn law_address_in_line(before: Seq<char>, w: Seq<char>, after: Seq<char>)
    requires
        forall|i: int| 0 <= i < before.len() ==> before[i] != ' ',
        26 <= w.len() <= 35,
        w[0] == '7',
        forall|i: int|
            1 <= i < w.len() ==> ('a' <= #[trigger] w[i] <= 'z' || 'A' <= w[i] <= 'Z' || '0'
                <= w[i] <= '9'),
    ensures
        rewrite(before + seq![' '] + w + seq![' '] + after) == rewrite(before) + seq![' ']
            + tony() + seq![' '] + rewrite(after),
{
    let s = before + seq![' '] + w + seq![' '] + after;
    let r = w + seq![' '] + after;
    assert(s =~= before + seq![' '] + r);
    lemma_rewrite_word_then_rest(before, r);
    lemma_rewrite_word_then_rest(w, after);
    lemma_rewrite_single_word(before);
    assert(is_boguscoin(w));
}

/// Law: a line without any address is passed on unchanged.
pub proof fn law_rewrite_keeps_plain_lines(s: Seq<char>)
    requires
        forall|i: int, j: int|
            0 <= i <= j <= s.len() ==> !is_boguscoin(#[trigger] s.subrange(i, j)),
    ensures
        rewrite(s) == s,
    decreases s.len(),
{
    lemma_first_space_bounds(s);
    match first_space(s) {
        None => {
            assert(!is_boguscoin(s.subrange(0, s.len() as int)));
            assert(s.subrange(0, s.len() as int) =~= s);
        },
        Some(k) => {
            let w = s.subrange(0, k);
            let r = s.subrange(k + 1, s.len() as int);
            assert(!is_boguscoin(s.subrange(0, k)));
            assert forall|i: int, j: int| 0 <= i <= j <= r.len() implies !is_boguscoin(
                #[trigger] r.subrange(i, j),
            ) by {
                assert(r.subrange(i, j) =~= s.subrange(k + 1 + i, k + 1 + j));
            }
            law_rewrite_keeps_plain_lines(r);
            assert(w + seq![' '] + r =~= s);
        },
    }
}

} // verus!
