//! Text: splitting a comma separated list, trimming white space.

use vstd::prelude::*;

use crate::seqs;

verus! {

/// The characters with the Unicode property `White_Space`.
pub open spec fn white_space(c: char) -> bool {
    ||| '\u{9}' <= c <= '\u{d}'
    ||| c == ' '
    ||| c == '\u{85}'
    ||| c == '\u{a0}'
    ||| c == '\u{1680}'
    ||| '\u{2000}' <= c <= '\u{200a}'
    ||| c == '\u{2028}'
    ||| c == '\u{2029}'
    ||| c == '\u{202f}'
    ||| c == '\u{205f}'
    ||| c == '\u{3000}'
}

/// Whether `c` is white space.
pub fn is_white_space(c: char) -> (yes: bool)
    ensures
        yes == white_space(c),
{
    ('\u{9}' <= c && c <= '\u{d}') || c == ' ' || c == '\u{85}' || c == '\u{a0}' || c == '\u{1680}'
        || ('\u{2000}' <= c && c <= '\u{200a}') || c == '\u{2028}' || c == '\u{2029}' || c
        == '\u{202f}' || c == '\u{205f}' || c == '\u{3000}'
}

/// `s` without the white space at its two ends.
pub open spec fn trimmed(s: Seq<char>) -> Seq<char>
    decreases s.len(),
{
    if s.len() > 0 && white_space(s[0]) {
        trimmed(s.drop_first())
    } else if s.len() > 0 && white_space(s.last()) {
        trimmed(s.drop_last())
    } else {
        s
    }
}

/// The bounds of what is left of `chars[from..to]` once it is trimmed.
fn trim_bounds(chars: &Vec<char>, from: usize, to: usize) -> (bounds: (usize, usize))
    requires
        from <= to <= chars.len(),
    ensures
        from <= bounds.0 <= bounds.1 <= to,
        chars@.subrange(bounds.0 as int, bounds.1 as int) == trimmed(
            chars@.subrange(from as int, to as int),
        ),
{
    let mut start: usize = from;
    let mut end: usize = to;
    while start < end && is_white_space(chars[start])
        invariant
            from <= start <= end,
            end == to,
            to <= chars.len(),
            trimmed(chars@.subrange(start as int, end as int)) == trimmed(
                chars@.subrange(from as int, to as int),
            ),
        decreases end - start,
    {
        proof {
            let rest = chars@.subrange(start as int, end as int);
            assert(rest.drop_first() =~= chars@.subrange(start + 1, end as int));
        }
        start = start + 1;
    }
    while start < end && is_white_space(chars[end - 1])
        invariant
            from <= start <= end <= to <= chars.len(),
            start < end ==> !white_space(chars@[start as int]),
            trimmed(chars@.subrange(start as int, end as int)) == trimmed(
                chars@.subrange(from as int, to as int),
            ),
        decreases end - start,
    {
        proof {
            let rest = chars@.subrange(start as int, end as int);
            assert(rest.drop_last() =~= chars@.subrange(start as int, end - 1));
        }
        end = end - 1;
    }
    (start, end)
}

/// `s` cut at every comma: always one piece more than there are commas.
pub open spec fn pieces(s: Seq<char>) -> Seq<Seq<char>>
    decreases s.len(),
{
    if s.len() == 0 {
        seq![Seq::<char>::empty()]
    } else {
        let before = pieces(s.drop_last());
        if s.last() == ',' {
            before.push(Seq::<char>::empty())
        } else {
            before.drop_last().push(before.last().push(s.last()))
        }
    }
}

/// The pieces of `list` that something is left of once they are trimmed, in their order.
pub open spec fn kept(list: Seq<Seq<char>>) -> Seq<Seq<char>> {
    list.map_values(|piece: Seq<char>| trimmed(piece)).filter(|piece: Seq<char>| piece.len() > 0)
}

/// The entries of a comma separated list: trimmed, and without the empty ones.
pub open spec fn entries(s: Seq<char>) -> Seq<Seq<char>> {
    kept(pieces(s))
}

proof fn lemma_kept_push(list: Seq<Seq<char>>, piece: Seq<char>)
    ensures
        kept(list.push(piece)) == if trimmed(piece).len() > 0 {
            kept(list).push(trimmed(piece))
        } else {
            kept(list)
        },
{
    let trim = |p: Seq<char>| trimmed(p);
    let full = |p: Seq<char>| p.len() > 0;
    let longer = list.push(piece).map_values(trim);
    assert(longer =~= list.map_values(trim).push(trimmed(piece)));
    seqs::lemma_filter_push(list.map_values(trim), trimmed(piece), full);
}

/// Reads the entries of a comma separated list.
pub fn list_entries(s: &str) -> (list: Vec<String>)
    ensures
        list.deep_view() == entries(s@),
{
    let mut chars: Vec<char> = Vec::new();
    for c in it: s.chars()
        invariant
            chars@ == it.seq().take(it.index() as int),
            it.seq() == s@,
    {
        chars.push(c);
    }
    assert(chars@ =~= s@);
    let mut list: Vec<String> = Vec::new();
    let mut start: usize = 0;
    let mut next: usize = 0;
    assert(s@.take(0) =~= Seq::<char>::empty());
    assert(s@.subrange(0, 0) =~= Seq::<char>::empty());
    assert(pieces(s@.take(0)) =~= seq![Seq::<char>::empty()]);
    assert(pieces(s@.take(0)).drop_last() =~= Seq::<Seq<char>>::empty());
    proof {
        lemma_kept_nothing();
    }
    while next < chars.len()
        invariant
            chars@ == s@,
            start <= next <= chars.len(),
            pieces(s@.take(next as int)).len() > 0,
            pieces(s@.take(next as int)).last() == s@.subrange(start as int, next as int),
            list.deep_view() == kept(pieces(s@.take(next as int)).drop_last()),
        decreases chars.len() - next,
    {
        let ghost before = pieces(s@.take(next as int));
        assert(s@.take(next + 1).drop_last() =~= s@.take(next as int));
        if chars[next] == ',' {
            push_entry(&mut list, s, &chars, start, next);
            start = next + 1;
            proof {
                lemma_kept_push(before.drop_last(), before.last());
                assert(before.drop_last().push(before.last()) =~= before);
                assert(pieces(s@.take(next + 1)).drop_last() =~= before);
                assert(s@.subrange(next + 1, next + 1) =~= Seq::<char>::empty());
            }
        } else {
            assert(s@.subrange(start as int, next + 1) =~= before.last().push(s@[next as int]));
            assert(pieces(s@.take(next + 1)).drop_last() =~= before.drop_last());
        }
        next = next + 1;
    }
    push_entry(&mut list, s, &chars, start, next);
    proof {
        let all = pieces(s@);
        assert(s@.take(next as int) =~= s@);
        lemma_kept_push(all.drop_last(), all.last());
        assert(all.drop_last().push(all.last()) =~= all);
    }
    list
}

/// Appends what is left of `s[from..to]` once it is trimmed, unless nothing is left.
fn push_entry(list: &mut Vec<String>, s: &str, chars: &Vec<char>, from: usize, to: usize)
    requires
        chars@ == s@,
        from <= to <= chars.len(),
    ensures
        final(list).deep_view() == ({
            let entry = trimmed(s@.subrange(from as int, to as int));
            if entry.len() > 0 {
                old(list).deep_view().push(entry)
            } else {
                old(list).deep_view()
            }
        }),
{
    let (start, end) = trim_bounds(chars, from, to);
    if start < end {
        list.push(s.substring_char(start, end).to_owned());
        assert(list.deep_view() =~= old(list).deep_view().push(
            trimmed(s@.subrange(from as int, to as int)),
        ));
    }
}

/// The pieces put together again, with a comma between two of them.
pub open spec fn with_commas(list: Seq<Seq<char>>) -> Seq<char>
    decreases list.len(),
{
    if list.len() == 0 {
        Seq::empty()
    } else if list.len() == 1 {
        list[0]
    } else {
        with_commas(list.drop_last()).push(',') + list.last()
    }
}

/// Cutting at the commas loses nothing and leaves no comma: no piece holds one, and the
/// pieces with commas between them are the text again.
pub proof fn pieces_restore_the_text(s: Seq<char>)
    ensures
        with_commas(pieces(s)) == s,
        pieces(s).len() > 0,
        forall|i: int| 0 <= i < pieces(s).len() ==> !(#[trigger] pieces(s)[i]).contains(','),
    decreases s.len(),
{
    let cut = pieces(s);
    if s.len() == 0 {
        assert(cut[0] =~= s);
    } else {
        let before = pieces(s.drop_last());
        pieces_restore_the_text(s.drop_last());
        assert(s.drop_last().push(s.last()) =~= s);
        if s.last() == ',' {
            assert(cut.drop_last() =~= before);
            assert(with_commas(cut) =~= s);
        } else {
            let tail = before.last().push(s.last());
            assert(cut.drop_last() =~= before.drop_last());
            assert(cut.last() == tail);
            assert(with_commas(cut) =~= s);
            assert(!before.last().contains(','));
            assert forall|i: int| 0 <= i < cut.len() implies !(#[trigger] cut[i]).contains(',') by {
                if i < cut.len() - 1 {
                    assert(cut[i] == before[i]);
                } else {
                    assert forall|k: int| 0 <= k < tail.len() implies tail[k] != ',' by {
                        if k < before.last().len() {
                            assert(tail[k] == before.last()[k]);
                            assert(before.last().contains(before.last()[k]));
                        }
                    }
                }
            }
        }
    }
}

/// Trimming takes white space off the ends and nothing else: what is left is a part of the
/// text, what was before it and behind it is white space, and it neither begins nor ends
/// with white space.
pub proof fn trimmed_has_no_white_space_at_its_ends(s: Seq<char>) -> (bounds: (int, int))
    ensures
        0 <= bounds.0 <= bounds.1 <= s.len(),
        trimmed(s) == s.subrange(bounds.0, bounds.1),
        forall|i: int| 0 <= i < bounds.0 ==> white_space(#[trigger] s[i]),
        forall|i: int| bounds.1 <= i < s.len() ==> white_space(#[trigger] s[i]),
        trimmed(s).len() > 0 ==> !white_space(trimmed(s)[0]) && !white_space(trimmed(s).last()),
    decreases s.len(),
{
    if s.len() > 0 && white_space(s[0]) {
        let inner = trimmed_has_no_white_space_at_its_ends(s.drop_first());
        let bounds = (inner.0 + 1, inner.1 + 1);
        assert(s.drop_first().subrange(inner.0, inner.1) =~= s.subrange(bounds.0, bounds.1));
        assert forall|i: int| 0 <= i < bounds.0 implies white_space(#[trigger] s[i]) by {
            if i > 0 {
                assert(s.drop_first()[i - 1] == s[i]);
            }
        }
        assert forall|i: int| bounds.1 <= i < s.len() implies white_space(#[trigger] s[i]) by {
            assert(s.drop_first()[i - 1] == s[i]);
        }
        bounds
    } else if s.len() > 0 && white_space(s.last()) {
        let bounds = trimmed_has_no_white_space_at_its_ends(s.drop_last());
        assert(s.drop_last().subrange(bounds.0, bounds.1) =~= s.subrange(bounds.0, bounds.1));
        assert forall|i: int| 0 <= i < bounds.0 implies white_space(#[trigger] s[i]) by {
            assert(s.drop_last()[i] == s[i]);
        }
        assert forall|i: int| bounds.1 <= i < s.len() implies white_space(#[trigger] s[i]) by {
            if i < s.len() - 1 {
                assert(s.drop_last()[i] == s[i]);
            }
        }
        bounds
    } else {
        assert(s.subrange(0, s.len() as int) =~= s);
        (0, s.len() as int)
    }
}

/// No entry of a comma separated list is empty, holds a comma, or begins or ends with white
/// space.
pub proof fn entries_are_clean(s: Seq<char>)
    ensures
        forall|i: int| 0 <= i < entries(s).len() ==> is_clean(#[trigger] entries(s)[i]),
{
    let trim = |p: Seq<char>| trimmed(p);
    let full = |p: Seq<char>| p.len() > 0;
    let cut = pieces(s).map_values(trim);
    pieces_restore_the_text(s);
    assert forall|i: int| 0 <= i < entries(s).len() implies is_clean(
        #[trigger] entries(s)[i],
    ) by {
        let entry = entries(s)[i];
        seqs::lemma_filter_keeps(cut, full, i);
        let k = choose|k: int| 0 <= k < cut.len() && cut[k] == entry;
        let piece = pieces(s)[k];
        assert(entry == trimmed(piece));
        let bounds = trimmed_has_no_white_space_at_its_ends(piece);
        assert(!piece.contains(','));
        assert forall|j: int| 0 <= j < entry.len() implies entry[j] != ',' by {
            assert(entry[j] == piece[bounds.0 + j]);
            assert(piece.contains(piece[bounds.0 + j]));
        }
    }
}

/// A text is an entry of a list exactly if it is not empty and a piece of the list trims to
/// it.
pub proof fn an_entry_is_a_trimmed_piece(s: Seq<char>, text: Seq<char>)
    ensures
        entries(s).contains(text) <==> text.len() > 0 && exists|i: int|
            0 <= i < pieces(s).len() && trimmed(#[trigger] pieces(s)[i]) == text,
{
    let trim = |p: Seq<char>| trimmed(p);
    let full = |p: Seq<char>| p.len() > 0;
    let cut = pieces(s).map_values(trim);
    if entries(s).contains(text) {
        let k = entries(s).index_of(text);
        seqs::lemma_filter_keeps(cut, full, k);
        let i = cut.index_of(text);
        assert(trimmed(pieces(s)[i]) == text);
    }
    if text.len() > 0 && exists|i: int|
        0 <= i < pieces(s).len() && trimmed(#[trigger] pieces(s)[i]) == text {
        let i = choose|i: int|
            0 <= i < pieces(s).len() && trimmed(#[trigger] pieces(s)[i]) == text;
        assert(cut[i] == text);
        cut.lemma_filter_contains(full, i);
    }
}

proof fn lemma_pieces_of_both(first: Seq<char>, second: Seq<char>)
    ensures
        pieces(first.push(',') + second) == pieces(first) + pieces(second),
    decreases second.len(),
{
    let both = first.push(',') + second;
    if second.len() == 0 {
        assert(both =~= first.push(','));
        assert(both.drop_last() =~= first);
        assert(pieces(both) =~= pieces(first) + pieces(second));
    } else {
        assert(both.drop_last() =~= first.push(',') + second.drop_last());
        lemma_pieces_of_both(first, second.drop_last());
        pieces_restore_the_text(second.drop_last());
        let before = pieces(second.drop_last());
        assert((pieces(first) + before).drop_last() =~= pieces(first) + before.drop_last());
        assert(pieces(both) =~= pieces(first) + pieces(second));
    }
}

proof fn lemma_kept_add(first: Seq<Seq<char>>, second: Seq<Seq<char>>)
    ensures
        kept(first + second) == kept(first) + kept(second),
    decreases second.len(),
{
    if second.len() == 0 {
        assert(first + second =~= first);
        assert(second =~= Seq::<Seq<char>>::empty());
        lemma_kept_nothing();
        assert(kept(first) + kept(second) =~= kept(first));
    } else {
        let init = second.drop_last();
        let piece = second.last();
        lemma_kept_add(first, init);
        assert(init.push(piece) =~= second);
        assert((first + init).push(piece) =~= first + second);
        lemma_kept_push(first + init, piece);
        lemma_kept_push(init, piece);
        assert(kept(first + second) =~= kept(first) + kept(second));
    }
}

proof fn lemma_kept_nothing()
    ensures
        kept(Seq::<Seq<char>>::empty()) == Seq::<Seq<char>>::empty(),
{
    let nothing = Seq::<Seq<char>>::empty();
    assert(nothing.map_values(|piece: Seq<char>| trimmed(piece)) =~= nothing);
    seqs::lemma_filter_empty(|piece: Seq<char>| piece.len() > 0);
}

/// The entries of two lists with a comma between them are those of the first, then those of
/// the second.
pub proof fn a_comma_joins_two_lists(first: Seq<char>, second: Seq<char>)
    ensures
        entries(first.push(',') + second) == entries(first) + entries(second),
{
    lemma_pieces_of_both(first, second);
    lemma_kept_add(pieces(first), pieces(second));
}

/// Whether a text can be an entry of a list: it is not empty, holds no comma, and neither
/// begins nor ends with white space.
pub open spec fn is_clean(text: Seq<char>) -> bool {
    &&& text.len() > 0
    &&& !text.contains(',')
    &&& !white_space(text[0])
    &&& !white_space(text.last())
}

proof fn lemma_one_piece(text: Seq<char>)
    requires
        !text.contains(','),
    ensures
        pieces(text) == seq![text],
    decreases text.len(),
{
    if text.len() == 0 {
        assert(text =~= Seq::<char>::empty());
    } else {
        let init = text.drop_last();
        assert(text.contains(text[text.len() - 1]));
        assert(!init.contains(',')) by {
            if init.contains(',') {
                let k = init.index_of(',');
                assert(text[k] == ',');
            }
        }
        lemma_one_piece(init);
        assert(init.push(text.last()) =~= text);
        assert(pieces(text) =~= seq![text]);
    }
}

/// Clean texts with commas between them are a list of which they are the entries.
pub proof fn a_list_of_clean_texts_reads_back(list: Seq<Seq<char>>)
    requires
        forall|i: int| 0 <= i < list.len() ==> is_clean(#[trigger] list[i]),
    ensures
        entries(with_commas(list)) == list,
    decreases list.len(),
{
    if list.len() == 0 {
        let nothing = Seq::<Seq<char>>::empty();
        let blank = Seq::<char>::empty();
        lemma_kept_push(nothing, blank);
        lemma_kept_nothing();
        assert(nothing.push(blank) =~= pieces(blank));
        assert(list =~= nothing);
    } else {
        let init = list.drop_last();
        let last = list.last();
        assert(is_clean(list[list.len() - 1]));
        lemma_one_piece(last);
        lemma_kept_push(Seq::<Seq<char>>::empty(), last);
        lemma_kept_nothing();
        assert(Seq::<Seq<char>>::empty().push(last) =~= seq![last]);
        assert(trimmed(last) == last);
        assert(entries(last) =~= seq![last]);
        if list.len() == 1 {
            assert(list =~= seq![last]);
        } else {
            assert forall|i: int| 0 <= i < init.len() implies is_clean(#[trigger] init[i]) by {
                assert(init[i] == list[i]);
            }
            a_list_of_clean_texts_reads_back(init);
            a_comma_joins_two_lists(with_commas(init), last);
            assert(init + seq![last] =~= list);
        }
    }
}

/// A text without commas is one entry, without the white space at its two ends, or none if
/// nothing else is in it.
pub proof fn a_text_without_commas_is_one_entry(s: Seq<char>)
    requires
        !s.contains(','),
    ensures
        (forall|i: int| 0 <= i < s.len() ==> white_space(#[trigger] s[i])) ==> entries(s).len()
            == 0,
        (exists|i: int| 0 <= i < s.len() && !white_space(#[trigger] s[i])) ==> {
            &&& entries(s).len() == 1
            &&& is_clean(entries(s)[0])
            &&& exists|from: int, to: int|
                0 <= from < to <= s.len() && entries(s)[0] == #[trigger] s.subrange(from, to) && (
                forall|i: int|
                    0 <= i < from || to <= i < s.len() ==> white_space(#[trigger] s[i]))
        },
{
    lemma_one_piece(s);
    lemma_kept_push(Seq::<Seq<char>>::empty(), s);
    lemma_kept_nothing();
    assert(Seq::<Seq<char>>::empty().push(s) =~= seq![s]);
    let bounds = trimmed_has_no_white_space_at_its_ends(s);
    if bounds.0 < bounds.1 {
        assert(trimmed(s)[0] == s[bounds.0]);
        entries_are_clean(s);
        assert(is_clean(entries(s)[0]));
        assert(entries(s)[0] == s.subrange(bounds.0, bounds.1));
    } else {
        assert(trimmed(s).len() == 0);
        assert forall|i: int| 0 <= i < s.len() implies white_space(#[trigger] s[i]) by {
            if i >= bounds.0 {
                assert(bounds.1 <= i);
            }
        }
    }
}

} // verus!
