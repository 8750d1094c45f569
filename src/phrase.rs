//! Words, the wordlist, and putting a candidate phrase together.
use vstd::prelude::*;
use crate::odometer::digits_valid;

verus! {

/// The word at index `i` of the English mnemonic wordlist.
pub uninterp spec fn english_word(i: int) -> Seq<char>;

/// Relies on `bip39::Language::word_list` for English: the standard list of
/// 2048 distinct words, in order, each of lowercase letters `a`-`z` only.
#[verifier::external_body]
fn english_word_list() -> (r: Vec<String>)
    ensures
        r@.len() == 2048,
        forall|i: int| 0 <= i < 2048 ==> (#[trigger] r@[i])@ == english_word(i),
        forall|i: int| 0 <= i < 2048 ==> is_word((#[trigger] r@[i])@),
        forall|i: int, j: int| 0 <= i < 2048 && 0 <= j < 2048 && i != j ==> (#[trigger] r@[i])@ != (#[trigger] r@[j])@,
{
    bip39::Language::English.word_list().iter().map(|w| w.to_string()).collect()
}

/// Words separated by single spaces.
pub open spec fn join(ws: Seq<Seq<char>>) -> Seq<char>
    decreases ws.len(),
{
    if ws.len() == 0 {
        Seq::empty()
    } else if ws.len() == 1 {
        ws[0]
    } else {
        join(ws.drop_last()) + seq![' '] + ws.last()
    }
}

/// The words that a digit vector picks from a wordlist.
pub open spec fn words_at(list: Seq<Seq<char>>, d: Seq<usize>) -> Seq<Seq<char>> {
    d.map_values(|x: usize| list[x as int])
}

/// Known words and the filled-in gap, in the configured order.
pub open spec fn assembled(known: Seq<char>, gap: Seq<char>, head: bool) -> Seq<char> {
    if head {
        gap + seq![' '] + known
    } else {
        known + seq![' '] + gap
    }
}

/// The process-wide table of 2048 words that the digits index.
pub struct Wordlist {
    words: Vec<String>,
}

impl Wordlist {
    pub closed spec fn spec_words(&self) -> Seq<Seq<char>> {
        self.words@.map_values(|w: String| w@)
    }

    pub open spec fn wf(&self) -> bool {
        &&& self.spec_words().len() == 2048
        &&& forall|i: int| 0 <= i < 2048 ==> is_word(#[trigger] self.spec_words()[i])
    }

    /// The English mnemonic wordlist.
    pub fn english() -> (r: Wordlist)
        ensures
            r.wf(),
            forall|i: int| 0 <= i < 2048 ==> #[trigger] r.spec_words()[i] == english_word(i),
            forall|i: int, j: int|
                0 <= i < 2048 && 0 <= j < 2048 && i != j ==> #[trigger] r.spec_words()[i] != #[trigger] r.spec_words()[j],
    {
        let words = english_word_list();
        let r = Wordlist { words };
        proof {
            assert forall|i: int| 0 <= i < 2048 implies is_word(#[trigger] r.spec_words()[i]) by {
                assert(r.spec_words()[i] == r.words@[i]@);
            }
            assert forall|i: int, j: int|
                0 <= i < 2048 && 0 <= j < 2048 && i != j implies #[trigger] r.spec_words()[i] != #[trigger] r.spec_words()[j] by {
                assert(r.spec_words()[i] == r.words@[i]@);
                assert(r.spec_words()[j] == r.words@[j]@);
            }
        }
        r
    }

    /// The text of a digit vector: the word of each digit, joined by single spaces.
    pub fn render(&self, d: &Vec<usize>) -> (r: String)
        requires
            self.wf(),
            digits_valid(d@),
        ensures
            r@ == join(words_at(self.spec_words(), d@)),
    {
        let ghost list = self.spec_words();
        let mut r = String::new();
        let mut i: usize = 0;
        while i < d.len()
            invariant
                i <= d@.len(),
                self.wf(),
                list == self.spec_words(),
                digits_valid(d@),
                r@ == join(words_at(list, d@.take(i as int))),
            decreases d@.len() - i,
        {
            let x = d[i];
            let w: &str = self.words[x].as_str();
            proof {
                assert(list[x as int] == self.words@[x as int]@);
                let pre = words_at(list, d@.take(i as int));
                let post = words_at(list, d@.take(i + 1));
                assert(post.drop_last() =~= pre);
                assert(post.last() == w@);
            }
            proof {
                reveal_strlit(" ");
            }
            if i > 0 {
                r.append(" ");
            }
            r.append(w);
            proof {
                let post = words_at(list, d@.take(i + 1));
                if i == 0 {
                    assert(post.len() == 1);
                    assert(r@ =~= post[0]);
                } else {
                    assert(r@ =~= join(post.drop_last()) + seq![' '] + post.last());
                }
            }
            i = i + 1;
        }
        proof {
            assert(d@.take(d@.len() as int) =~= d@);
        }
        r
    }
}

/// Puts the known words and the gap together with one space between them:
/// the gap first when `head` is set, else after the known words.
pub fn assemble(known: &str, gap: &str, head: bool) -> (r: String)
    ensures
        r@ == assembled(known@, gap@, head),
{
    proof {
        reveal_strlit(" ");
    }
    let mut r = String::new();
    if head {
        r.append(gap);
        r.append(" ");
        r.append(known);
    } else {
        r.append(known);
        r.append(" ");
        r.append(gap);
    }
    proof {
        assert(r@ =~= assembled(known@, gap@, head));
    }
    r
}

/// Whitespace as `char::is_whitespace` has it: the Unicode `White_Space`
/// characters.
pub open spec fn is_space(c: char) -> bool {
    ||| '\t' <= c <= '\r'
    ||| c == ' '
    ||| c == '\u{85}'
    ||| c == '\u{a0}'
    ||| c == '\u{1680}'
    ||| '\u{2000}' <= c <= '\u{200a}'
    ||| c == '\u{2028}'
    ||| c == '\u{2029}'
    ||| c == '\u{202f}'
    ||| c == '\u{205f}'
    ||| c == '\u{3000}'
}

/// Whether `c` is whitespace.
pub fn is_whitespace_char(c: char) -> (r: bool)
    ensures
        r == is_space(c),
{
    ('\t' <= c && c <= '\r') || c == ' ' || c == '\u{85}' || c == '\u{a0}' || c == '\u{1680}' || (
    '\u{2000}' <= c && c <= '\u{200a}') || c == '\u{2028}' || c == '\u{2029}' || c == '\u{202f}'
        || c == '\u{205f}' || c == '\u{3000}'
}

/// A word: at least one character and no whitespace.
pub open spec fn is_word(w: Seq<char>) -> bool {
    w.len() >= 1 && forall|i: int| 0 <= i < w.len() ==> !is_space(#[trigger] w[i])
}

/// The whitespace-separated tokens of `s`, in order.
pub open spec fn tokens(s: Seq<char>) -> Seq<Seq<char>>
    decreases s.len(),
{
    if s.len() == 0 {
        Seq::empty()
    } else {
        let rest = tokens(s.drop_last());
        if is_space(s.last()) {
            rest
        } else if s.len() >= 2 && !is_space(s[s.len() - 2]) {
            rest.drop_last().push(rest.last().push(s.last()))
        } else {
            rest.push(seq![s.last()])
        }
    }
}

/// A text that ends in a non-whitespace character has at least one token.
pub proof fn lemma_tokens_last(s: Seq<char>)
    requires
        s.len() >= 1,
        !is_space(s.last()),
    ensures
        tokens(s).len() >= 1,
    decreases s.len(),
{
    if s.len() >= 2 && !is_space(s[s.len() - 2]) {
        let s2 = s.drop_last();
        assert(s2.last() == s[s.len() - 2]);
        lemma_tokens_last(s2);
    }
}

/// Text, a space, and more text: the tokens of the first part followed by
/// those of the second.
pub proof fn lemma_tokens_concat(a: Seq<char>, b: Seq<char>)
    ensures
        tokens(a + seq![' '] + b) == tokens(a) + tokens(b),
    decreases b.len(),
{
    let t = a + seq![' '] + b;
    let ta = tokens(a);
    if b.len() == 0 {
        assert(t.drop_last() =~= a);
        assert(t.last() == ' ');
        assert(tokens(b) =~= Seq::<Seq<char>>::empty());
        assert(ta + tokens(b) =~= ta);
    } else {
        let b2 = b.drop_last();
        let c = b.last();
        lemma_tokens_concat(a, b2);
        assert(t.drop_last() =~= a + seq![' '] + b2);
        assert(t.last() == c);
        let tb2 = tokens(b2);
        if is_space(c) {
            assert(tokens(t) =~= ta + tokens(b));
        } else if b2.len() >= 1 && !is_space(b2.last()) {
            lemma_tokens_last(b2);
            assert(t[t.len() - 2] == b2.last());
            assert(b[b.len() - 2] == b2.last());
            assert((ta + tb2).drop_last() =~= ta + tb2.drop_last());
            assert((ta + tb2).last() == tb2.last());
            assert(tokens(t) =~= ta + tokens(b));
        } else {
            if b2.len() == 0 {
                assert(t[t.len() - 2] == ' ');
            } else {
                assert(t[t.len() - 2] == b2.last());
                assert(b[b.len() - 2] == b2.last());
            }
            assert(tokens(t) =~= ta + tokens(b));
        }
    }
}

/// A single word is a single token.
proof fn lemma_tokens_one(w: Seq<char>)
    requires
        is_word(w),
    ensures
        tokens(w) == seq![w],
    decreases w.len(),
{
    assert(!is_space(w.last()));
    if w.len() == 1 {
        assert(w.drop_last() =~= Seq::<char>::empty());
        assert(seq![w.last()] =~= w);
        assert(tokens(w.drop_last()) =~= Seq::<Seq<char>>::empty());
        assert(tokens(w) == Seq::<Seq<char>>::empty().push(seq![w.last()]));
        assert(tokens(w) =~= seq![w]);
    } else {
        let w2 = w.drop_last();
        assert forall|i: int| 0 <= i < w2.len() implies !is_space(#[trigger] w2[i]) by {
            assert(w2[i] == w[i]);
        }
        lemma_tokens_one(w2);
        assert(!is_space(w[w.len() - 2]));
        assert(w2.push(w.last()) =~= w);
        let rest = tokens(w2);
        assert(rest.drop_last() =~= Seq::<Seq<char>>::empty());
        assert(rest.last() == w2);
        assert(tokens(w) == rest.drop_last().push(rest.last().push(w.last())));
        assert(tokens(w) =~= seq![w]);
    }
}

/// Splitting joined words on whitespace gives the words back.
pub proof fn lemma_tokens_join(ws: Seq<Seq<char>>)
    requires
        ws.len() >= 1,
        forall|i: int| 0 <= i < ws.len() ==> is_word(#[trigger] ws[i]),
    ensures
        tokens(join(ws)) == ws,
    decreases ws.len(),
{
    if ws.len() == 1 {
        assert(is_word(ws[0]));
        lemma_tokens_one(ws[0]);
        assert(tokens(join(ws)) =~= ws);
    } else {
        let init = ws.drop_last();
        assert forall|i: int| 0 <= i < init.len() implies is_word(#[trigger] init[i]) by {
            assert(init[i] == ws[i]);
        }
        lemma_tokens_join(init);
        assert(is_word(ws.last()));
        lemma_tokens_one(ws.last());
        lemma_tokens_concat(join(init), ws.last());
        assert(init + seq![ws.last()] =~= ws);
    }
}

/// Putting known text and generated words together, in either order, and
/// splitting the result on whitespace gives the known words and the generated
/// words in that order: twelve tokens, with the known words unchanged at the
/// front (gap after) or at the back (gap before), whatever whitespace the
/// known text holds.
pub proof fn assemble_round_trip(known: Seq<char>, gap: Seq<Seq<char>>, head: bool)
    requires
        gap.len() >= 1,
        forall|i: int| 0 <= i < gap.len() ==> is_word(#[trigger] gap[i]),
        tokens(known).len() + gap.len() == 12,
    ensures
        ({
            let t = tokens(assembled(known, join(gap), head));
            let kt = tokens(known);
            &&& t.len() == 12
            &&& head ==> t == gap + kt && t.skip(gap.len() as int) == kt
            &&& !head ==> t == kt + gap && t.take(kt.len() as int) == kt
        }),
{
    lemma_tokens_join(gap);
    let kt = tokens(known);
    if head {
        lemma_tokens_concat(join(gap), known);
        assert((gap + kt).skip(gap.len() as int) =~= kt);
    } else {
        lemma_tokens_concat(known, join(gap));
        assert((kt + gap).take(kt.len() as int) =~= kt);
    }
}

} // verus!
