//! Text helpers shared by the readers: characters, literal comparison, words.
use vstd::prelude::*;
use vstd::std_specs::iter::IteratorSpec;

verus! {

broadcast use {vstd::string::axiom_spec_iter, vstd::string::next_postcondition};

/// The characters of `text`, in order.
pub(crate) fn chars_of(text: &str) -> (r: Vec<char>)
    ensures
        r@ == text@,
{
    let mut it = text.chars();
    let mut out: Vec<char> = Vec::new();
    loop
        invariant
            it.obeys_prophetic_iter_laws(),
            it.decrease() is Some,
            out@ + it.remaining() == text@,
        ensures
            out@ == text@,
        decreases it.decrease()->0,
    {
        match it.next() {
            Some(c) => {
                out.push(c);
            },
            None => {
                assert(out@ + it.remaining() =~= out@);
                break;
            },
        }
    }
    out
}

/// `chars[from..to]` is the text `lit`.
pub(crate) fn same_text(chars: &Vec<char>, from: usize, to: usize, lit: &str) -> (r: bool)
    requires
        from <= to <= chars@.len(),
    ensures
        r == (chars@.subrange(from as int, to as int) == lit@),
{
    let n = lit.unicode_len();
    if to - from != n {
        return false;
    }
    let mut i: usize = 0;
    while i < n
        invariant
            i <= n,
            n == lit@.len(),
            to - from == n,
            from <= to <= chars@.len(),
            forall|q: int| 0 <= q < i ==> chars@[from + q] == #[trigger] lit@[q],
        decreases n - i,
    {
        if chars[from + i] != lit.get_char(i) {
            proof {
                assert(chars@.subrange(from as int, to as int)[i as int] != lit@[i as int]);
            }
            return false;
        }
        i = i + 1;
    }
    proof {
        assert(chars@.subrange(from as int, to as int) =~= lit@);
    }
    true
}

/// Characters that separate words.
pub open spec fn is_space(c: char) -> bool {
    c == ' ' || c == '\t' || c == '\r' || c == '\n'
}

/// The words finished so far, and the one being read.
pub struct WordsRead {
    pub done: Seq<Seq<char>>,
    pub cur: Seq<char>,
}

pub open spec fn words_scan(s: Seq<char>) -> WordsRead
    decreases s.len(),
{
    if s.len() == 0 {
        WordsRead { done: Seq::empty(), cur: Seq::empty() }
    } else {
        let st = words_scan(s.drop_last());
        if is_space(s.last()) {
            if st.cur.len() > 0 {
                WordsRead { done: st.done.push(st.cur), cur: Seq::empty() }
            } else {
                st
            }
        } else {
            WordsRead { cur: st.cur.push(s.last()), ..st }
        }
    }
}

/// The non-empty runs of non-space characters of `s`, in order.
pub open spec fn words_of(s: Seq<char>) -> Seq<Seq<char>> {
    let st = words_scan(s);
    if st.cur.len() > 0 {
        st.done.push(st.cur)
    } else {
        st.done
    }
}

pub open spec fn texts(v: Seq<String>) -> Seq<Seq<char>> {
    v.map_values(|s: String| s@)
}

/// The words of `card_str`, as written.
pub fn split_words(card_str: &str) -> (r: Vec<String>)
    ensures
        texts(r@) == words_of(card_str@),
{
    let chars = chars_of(card_str);
    let mut out: Vec<String> = Vec::new();
    let mut start: usize = 0;
    let mut i: usize = 0;
    proof {
        assert(chars@.take(0) =~= Seq::<char>::empty());
        assert(texts(out@) =~= Seq::<Seq<char>>::empty());
    }
    while i < chars.len()
        invariant
            chars@ == card_str@,
            start <= i <= chars@.len(),
            words_scan(chars@.take(i as int)) == (WordsRead {
                done: texts(out@),
                cur: chars@.subrange(start as int, i as int),
            }),
        decreases chars.len() - i,
    {
        let c = chars[i];
        proof {
            assert(chars@.take(i + 1).drop_last() =~= chars@.take(i as int));
            assert(chars@.take(i + 1).last() == c);
        }
        let ghost st = words_scan(chars@.take(i as int));
        if c == ' ' || c == '\t' || c == '\r' || c == '\n' {
            proof {
                assert(is_space(c));
                assert(st.cur.len() == i - start);
            }
            if start < i {
                let word = card_str.substring_char(start, i).to_owned();
                proof {
                    assert(texts(out@.push(word)) =~= texts(out@).push(word@));
                }
                out.push(word);
                proof {
                    assert(words_scan(chars@.take(i + 1)) == WordsRead {
                        done: st.done.push(st.cur),
                        cur: Seq::<char>::empty(),
                    });
                }
            }
            proof {
                assert(chars@.subrange(i + 1, i + 1) =~= Seq::<char>::empty());
                assert(st.cur.len() == 0 ==> st.cur =~= Seq::<char>::empty());
            }
            start = i + 1;
        } else {
            proof {
                assert(chars@.subrange(start as int, i + 1) =~= chars@.subrange(
                    start as int,
                    i as int,
                ).push(c));
            }
        }
        i = i + 1;
    }
    proof {
        assert(chars@.take(i as int) =~= chars@);
    }
    if start < i {
        let word = card_str.substring_char(start, i).to_owned();
        proof {
            assert(texts(out@.push(word)) =~= texts(out@).push(word@));
        }
        out.push(word);
    }
    out
}

/// The pieces finished so far, and the one being read.
pub struct PiecesRead {
    pub done: Seq<Seq<char>>,
    pub cur: Seq<char>,
}

pub open spec fn pieces_scan(s: Seq<char>, sep: char) -> PiecesRead
    decreases s.len(),
{
    if s.len() == 0 {
        PiecesRead { done: Seq::empty(), cur: Seq::empty() }
    } else {
        let st = pieces_scan(s.drop_last(), sep);
        if s.last() == sep {
            PiecesRead { done: st.done.push(st.cur), cur: Seq::empty() }
        } else {
            PiecesRead { cur: st.cur.push(s.last()), ..st }
        }
    }
}

/// The parts of `s` between occurrences of `sep`, empty ones included: one more
/// than there are separators.
pub open spec fn pieces_of(s: Seq<char>, sep: char) -> Seq<Seq<char>> {
    let st = pieces_scan(s, sep);
    st.done.push(st.cur)
}

/// Splits `text` at every `sep`.
pub fn split_pieces(text: &str, sep: char) -> (r: Vec<String>)
    ensures
        texts(r@) == pieces_of(text@, sep),
{
    let chars = chars_of(text);
    let mut out: Vec<String> = Vec::new();
    let mut start: usize = 0;
    let mut i: usize = 0;
    proof {
        assert(chars@.take(0) =~= Seq::<char>::empty());
        assert(texts(out@) =~= Seq::<Seq<char>>::empty());
    }
    while i < chars.len()
        invariant
            chars@ == text@,
            start <= i <= chars@.len(),
            pieces_scan(chars@.take(i as int), sep) == (PiecesRead {
                done: texts(out@),
                cur: chars@.subrange(start as int, i as int),
            }),
        decreases chars.len() - i,
    {
        let c = chars[i];
        proof {
            assert(chars@.take(i + 1).drop_last() =~= chars@.take(i as int));
            assert(chars@.take(i + 1).last() == c);
        }
        if c == sep {
            let piece = text.substring_char(start, i).to_owned();
            proof {
                assert(texts(out@.push(piece)) =~= texts(out@).push(piece@));
                assert(chars@.subrange(i + 1, i + 1) =~= Seq::<char>::empty());
            }
            out.push(piece);
            start = i + 1;
        } else {
            proof {
                assert(chars@.subrange(start as int, i + 1) =~= chars@.subrange(
                    start as int,
                    i as int,
                ).push(c));
            }
        }
        i = i + 1;
    }
    proof {
        assert(chars@.take(i as int) =~= chars@);
    }
    let piece = text.substring_char(start, i).to_owned();
    proof {
        assert(texts(out@.push(piece)) =~= texts(out@).push(piece@));
    }
    out.push(piece);
    out
}

} // verus!
