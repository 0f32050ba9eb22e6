//! Wording: text is parted, strung together and wrapped without losing any of it,
//! and a number that was written can be read.

use crate::text::{
    all_digits, digit, digits, digits_value, filled, is_space, joined, read_u32, scanned,
    spec_words, spec_wrap, views, words, wrap,
};
use vstd::prelude::*;

verus! {

/// A text without its spaces.
pub open spec fn solid(s: Seq<char>) -> Seq<char>
    decreases s.len(),
{
    if s.len() == 0 {
        seq![]
    } else if is_space(s.last()) {
        solid(s.drop_last())
    } else {
        solid(s.drop_last()).push(s.last())
    }
}

/// Some texts without their spaces, one behind the other.
spec fn solid_all(v: Seq<Seq<char>>) -> Seq<char>
    decreases v.len(),
{
    if v.len() == 0 {
        seq![]
    } else {
        solid_all(v.drop_last()) + solid(v.last())
    }
}

proof fn lemma_solid_add(a: Seq<char>, b: Seq<char>)
    ensures
        solid(a + b) == solid(a) + solid(b),
    decreases b.len(),
{
    if b.len() == 0 {
        assert(a + b =~= a);
        assert(solid(a) + solid(b) =~= solid(a));
    } else {
        lemma_solid_add(a, b.drop_last());
        assert((a + b).drop_last() =~= a + b.drop_last());
        assert((a + b).last() == b.last());
        assert(solid(a + b) =~= solid(a) + solid(b));
    }
}

proof fn lemma_space()
    ensures
        " "@.len() == 1,
        " "@[0] == ' ',
        solid(" "@) == Seq::<char>::empty(),
        is_space(' '),
{
    reveal_strlit(" ");
    assert(" "@.drop_last() =~= seq![]);
    assert(" "@.last() == ' ');
    assert(solid(" "@.drop_last()) =~= seq![]);
    assert(is_space(' '));
}

proof fn lemma_solid_joined(v: Seq<Seq<char>>)
    ensures
        solid(joined(v, " "@)) == solid_all(v),
    decreases v.len(),
{
    lemma_space();
    if v.len() == 1 {
        assert(v.drop_last() =~= seq![]);
        assert(solid_all(v.drop_last()) =~= seq![]);
        assert(solid_all(v) =~= solid(v[0]));
    } else if v.len() > 1 {
        let t = v.drop_last();
        lemma_solid_joined(t);
        lemma_solid_add(joined(t, " "@), " "@);
        lemma_solid_add(joined(t, " "@) + " "@, v.last());
        assert(solid(joined(v, " "@)) =~= solid_all(v));
    }
}

proof fn lemma_solid_push(v: Seq<Seq<char>>, s: Seq<char>)
    ensures
        solid_all(v.push(s)) == solid_all(v) + solid(s),
{
    assert(v.push(s).drop_last() =~= v);
}

proof fn lemma_solid_scanned(s: Seq<char>, n: nat)
    requires
        n <= s.len(),
    ensures
        solid_all(scanned(s, n).0) + solid(scanned(s, n).1) == solid(s.take(n as int)),
    decreases n,
{
    if n == 0 {
        assert(s.take(0) =~= seq![]);
        assert(solid_all(scanned(s, n).0) + solid(scanned(s, n).1) =~= seq![]);
    } else {
        let m = (n - 1) as nat;
        lemma_solid_scanned(s, m);
        let (done, word) = scanned(s, m);
        let c = s[n - 1];
        assert(s.take(n as int).drop_last() =~= s.take(m as int));
        assert(s.take(n as int).last() == c);
        if !is_space(c) {
            assert(word.push(c).drop_last() =~= word);
            assert(word.push(c).last() == c);
            assert(solid_all(done) + solid(word.push(c)) =~= solid(s.take(n as int)));
        } else {
            lemma_solid_push(done, word);
            assert(solid(seq![]) =~= Seq::<char>::empty());
            assert(solid_all(done) + solid(word) + solid(seq![]) =~= solid(s.take(n as int)));
            if word.len() == 0 {
                assert(word =~= seq![]);
            }
        }
    }
}

proof fn lemma_solid_words(s: Seq<char>)
    ensures
        solid_all(spec_words(s)) == solid(s),
{
    lemma_solid_scanned(s, s.len());
    assert(s.take(s.len() as int) =~= s);
    let (done, word) = scanned(s, s.len());
    lemma_solid_push(done, word);
    if word.len() == 0 {
        assert(solid_all(done) + solid(word) =~= solid_all(done));
    }
}

proof fn lemma_solid_filled(v: Seq<Seq<char>>, width: usize, n: nat)
    requires
        n <= v.len(),
    ensures
        solid_all(filled(v, width, n).0) + solid(filled(v, width, n).1) == solid_all(
            v.take(n as int),
        ),
    decreases n,
{
    if n == 0 {
        assert(v.take(0) =~= seq![]);
        assert(solid_all(filled(v, width, n).0) + solid(filled(v, width, n).1) =~= seq![]);
    } else {
        let m = (n - 1) as nat;
        lemma_solid_filled(v, width, m);
        lemma_space();
        let (lines, line) = filled(v, width, m);
        let word = v[n - 1];
        assert(v.take(n as int).drop_last() =~= v.take(m as int));
        assert(v.take(n as int).last() == word);
        lemma_solid_push(lines, line);
        lemma_solid_add(line, " "@);
        lemma_solid_add(line + " "@, word);
        if line.len() == 0 {
            assert(solid_all(lines) + solid(line) =~= solid_all(lines));
        }
        assert(solid_all(filled(v, width, n).0) + solid(filled(v, width, n).1) =~= solid_all(
            v.take(n as int),
        ));
    }
}

/// Wrapping loses nothing: the lines, one behind the other, are the text, but for
/// its spaces.
pub proof fn law_wrapping_loses_nothing(text: &str, width: usize, lines: Vec<String>)
    requires
        call_ensures(wrap, (text, width), lines),
    ensures
        solid(joined(views(lines@), " "@)) == solid(text@),
{
    let s = text@;
    let v = spec_words(s);
    assert(views(lines@) == spec_wrap(s, width));
    lemma_solid_words(s);
    lemma_solid_filled(v, width, v.len());
    assert(v.take(v.len() as int) =~= v);
    let (full, line) = filled(v, width, v.len());
    lemma_solid_push(full, line);
    if line.len() == 0 {
        assert(solid_all(full) + solid(line) =~= solid_all(full));
    }
    lemma_solid_joined(views(lines@));
}

/// Words hold no space, and none is empty.
proof fn lemma_scanned_words(s: Seq<char>, n: nat)
    requires
        n <= s.len(),
    ensures
        forall|i: int| 0 <= i < scanned(s, n).0.len() ==> is_word(#[trigger] scanned(s, n).0[i]),
        forall|j: int| 0 <= j < scanned(s, n).1.len() ==> !is_space(#[trigger] scanned(s, n).1[j]),
    decreases n,
{
    if n > 0 {
        lemma_scanned_words(s, (n - 1) as nat);
        let (done, word) = scanned(s, (n - 1) as nat);
        if is_space(s[n - 1]) && word.len() > 0 {
            assert(is_word(word));
        }
    }
}

/// Whether a text is a word: something, without a space.
pub open spec fn is_word(s: Seq<char>) -> bool {
    s.len() > 0 && forall|j: int| 0 <= j < s.len() ==> !is_space(#[trigger] s[j])
}

/// A text is parted into words, and its words are all there is to it.
pub proof fn law_words_are_all_there_is(text: &str, v: Vec<String>)
    requires
        call_ensures(words, (text,), v),
    ensures
        forall|i: int| 0 <= i < v@.len() ==> is_word(#[trigger] v@[i]@),
        solid(joined(views(v@), " "@)) == solid(text@),
{
    let s = text@;
    lemma_scanned_words(s, s.len());
    lemma_solid_words(s);
    lemma_solid_joined(views(v@));
    assert forall|i: int| 0 <= i < v@.len() implies is_word(#[trigger] v@[i]@) by {
        assert(views(v@)[i] == v@[i]@);
        let (done, word) = scanned(s, s.len());
        if i < done.len() {
            assert(is_word(done[i]));
        }
    }
}

proof fn lemma_scanned_prefix(a: Seq<char>, b: Seq<char>, n: nat)
    requires
        n <= a.len(),
    ensures
        scanned(a + b, n) == scanned(a, n),
    decreases n,
{
    if n > 0 {
        lemma_scanned_prefix(a, b, (n - 1) as nat);
        assert((a + b)[n - 1] == a[n - 1]);
    }
}

proof fn lemma_scanned_behind(a: Seq<char>, b: Seq<char>, k: nat)
    requires
        k <= b.len(),
    ensures
        ({
            let s = a + " "@ + b;
            let n = a.len() + 1 + k;
            scanned(s, n) == (spec_words(a) + scanned(b, k).0, scanned(b, k).1)
        }),
    decreases k,
{
    lemma_space();
    let s = a + " "@ + b;
    let n = a.len() + 1 + k;
    if k == 0 {
        assert(s =~= a + (" "@ + b));
        lemma_scanned_prefix(a, " "@ + b, a.len());
        assert(s[a.len() as int] == ' ');
        assert(scanned(s, n).0 =~= spec_words(a) + scanned(b, k).0);
    } else {
        lemma_scanned_behind(a, b, (k - 1) as nat);
        assert(s[n - 1] == b[k - 1]);
        let (done, word) = scanned(b, (k - 1) as nat);
        assert((spec_words(a) + done).push(word) =~= spec_words(a) + done.push(word));
    }
}

/// A space parts words, and nothing else does: a text without a space is one word,
/// and the words of two texts with a space between them are those of the one and
/// then those of the other.
pub proof fn law_spaces_part_words(
    a: &str,
    b: &str,
    both: &str,
    va: Vec<String>,
    vb: Vec<String>,
    v: Vec<String>,
)
    requires
        both@ == a@ + " "@ + b@,
        call_ensures(words, (a,), va),
        call_ensures(words, (b,), vb),
        call_ensures(words, (both,), v),
    ensures
        views(v@) == views(va@) + views(vb@),
        is_word(a@) ==> views(va@) == seq![a@],
{
    lemma_space();
    lemma_scanned_behind(a@, b@, b@.len());
    let (done, word) = scanned(b@, b@.len());
    assert(both@.len() == a@.len() + 1 + b@.len());
    assert((spec_words(a@) + done).push(word) =~= spec_words(a@) + done.push(word));
    if is_word(a@) {
        lemma_one_word(a@, a@.len());
        assert(a@.take(a@.len() as int) =~= a@);
        assert(spec_words(a@) =~= seq![a@]);
    }
}

proof fn lemma_one_word(s: Seq<char>, n: nat)
    requires
        is_word(s),
        n <= s.len(),
    ensures
        scanned(s, n) == (Seq::<Seq<char>>::empty(), s.take(n as int)),
    decreases n,
{
    if n == 0 {
        assert(s.take(0) =~= seq![]);
    } else {
        lemma_one_word(s, (n - 1) as nat);
        assert(!is_space(s[n - 1]));
        assert(s.take(n as int) =~= s.take(n - 1).push(s[n - 1]));
    }
}

proof fn lemma_digits_read(n: nat)
    ensures
        all_digits(digits(n)),
        digits_value(digits(n)) == n,
        digits(n)[0] != '+',
    decreases n,
{
    let d = digit(n % 10);
    assert(d as nat == 48 + n % 10 && '0' <= d <= '9');
    if n < 10 {
        assert(digits(n).drop_last() =~= seq![]);
        assert(digits_value(digits(n).drop_last()) == 0);
    } else {
        lemma_digits_read(n / 10);
        assert(digits(n).drop_last() =~= digits(n / 10));
        assert(digits(n).last() == d);
    }
}

/// A number that was written in decimal reads as that number.
pub proof fn law_a_written_number_reads_back(text: &str, n: u32, v: Option<u32>)
    requires
        text@ == digits(n as nat),
        call_ensures(read_u32, (text,), v),
    ensures
        v == Some(n),
{
    lemma_digits_read(n as nat);
}

} // verus!
