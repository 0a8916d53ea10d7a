//! Lists of paths, written with commas between them.

use crate::text::texts;
use vstd::prelude::*;

verus! {

/// The character is white space, as Unicode has it.
pub open spec fn white(c: char) -> bool {
    let code = c as int;
    ||| 0x09 <= code <= 0x0D
    ||| code == 0x20
    ||| code == 0x85
    ||| code == 0xA0
    ||| code == 0x1680
    ||| 0x2000 <= code <= 0x200A
    ||| code == 0x2028
    ||| code == 0x2029
    ||| code == 0x202F
    ||| code == 0x205F
    ||| code == 0x3000
}

/// The character is white space, as Unicode has it.
pub fn is_white(c: char) -> (r: bool)
    ensures
        r == white(c),
{
    let code: u32 = c as u32;
    (0x09 <= code && code <= 0x0D) || code == 0x20 || code == 0x85 || code == 0xA0 || code == 0x1680
        || (0x2000 <= code && code <= 0x200A) || code == 0x2028 || code == 0x2029 || code == 0x202F
        || code == 0x205F || code == 0x3000
}

/// The text without white space before it.
pub open spec fn without_leading(s: Seq<char>) -> Seq<char>
    decreases s.len(),
{
    if s.len() > 0 && white(s[0]) {
        without_leading(s.subrange(1, s.len() as int))
    } else {
        s
    }
}

/// The text without white space behind it.
pub open spec fn without_trailing(s: Seq<char>) -> Seq<char>
    decreases s.len(),
{
    if s.len() > 0 && white(s.last()) {
        without_trailing(s.drop_last())
    } else {
        s
    }
}

/// The text without white space around it.
pub open spec fn trimmed(s: Seq<char>) -> Seq<char> {
    without_trailing(without_leading(s))
}

/// The parts of a text between its commas.
pub open spec fn fields(s: Seq<char>) -> Seq<Seq<char>>
    decreases s.len(),
{
    if s.len() == 0 {
        seq![seq![]]
    } else {
        let before = fields(s.drop_last());
        if s.last() == ',' {
            before.push(seq![])
        } else {
            before.drop_last().push(before.last().push(s.last()))
        }
    }
}

/// The parts without white space around them, except for those that are then empty.
pub open spec fn kept(parts: Seq<Seq<char>>) -> Seq<Seq<char>>
    decreases parts.len(),
{
    if parts.len() == 0 {
        seq![]
    } else {
        let before = kept(parts.drop_last());
        let part = trimmed(parts.last());
        if part.len() > 0 {
            before.push(part)
        } else {
            before
        }
    }
}

/// The paths that a list names.
pub open spec fn listed(data: Seq<char>) -> Seq<Seq<char>> {
    kept(fields(data))
}

/// Where the part from `from` up to `to` starts and ends without white space around it.
fn trim_range(chars: &Vec<char>, from: usize, to: usize) -> (r: (usize, usize))
    requires
        from <= to <= chars@.len(),
    ensures
        from <= r.0 <= r.1 <= to,
        chars@.subrange(r.0 as int, r.1 as int) == trimmed(
            chars@.subrange(from as int, to as int),
        ),
{
    let ghost part = chars@.subrange(from as int, to as int);
    let mut start: usize = from;
    while start < to && is_white(chars[start])
        invariant
            from <= start <= to <= chars@.len(),
            without_leading(chars@.subrange(start as int, to as int)) == without_leading(part),
        decreases to - start,
    {
        let ghost here = chars@.subrange(start as int, to as int);
        assert(here.subrange(1, here.len() as int) =~= chars@.subrange(start + 1, to as int));
        start = start + 1;
    }
    let ghost lead = chars@.subrange(start as int, to as int);
    assert(without_leading(part) == lead);
    let mut end: usize = to;
    while start < end && is_white(chars[end - 1])
        invariant
            from <= start <= end <= to <= chars@.len(),
            without_trailing(chars@.subrange(start as int, end as int)) == without_trailing(lead),
        decreases end - start,
    {
        let ghost here = chars@.subrange(start as int, end as int);
        assert(here.drop_last() =~= chars@.subrange(start as int, end - 1));
        end = end - 1;
    }
    (start, end)
}

/// Adds the part from `from` up to `to` to the paths, unless it is empty.
fn push_path(paths: &mut Vec<String>, data: &str, chars: &Vec<char>, from: usize, to: usize)
    requires
        chars@ == data@,
        from <= to <= chars@.len(),
    ensures
        texts(final(paths)@) == ({
            let part = trimmed(data@.subrange(from as int, to as int));
            if part.len() > 0 {
                texts(old(paths)@).push(part)
            } else {
                texts(old(paths)@)
            }
        }),
{
    let (start, end) = trim_range(chars, from, to);
    if start < end {
        let path: String = data.substring_char(start, end).to_owned();
        paths.push(path);
        assert(texts(paths@) =~= texts(old(paths)@).push(
            trimmed(data@.subrange(from as int, to as int)),
        ));
    }
}

/// The paths that a list names: what stands between commas, without white space around it and
/// without empty parts.
pub fn split_paths(data: &str) -> (paths: Vec<String>)
    ensures
        texts(paths@) == listed(data@),
{
    let mut chars: Vec<char> = Vec::new();
    for c in it: data.chars()
        invariant
            it.seq() == data@,
            chars@ == data@.take(it.index()),
    {
        chars.push(c);
    }
    assert(chars@ =~= data@);
    let mut paths: Vec<String> = Vec::new();
    let ghost mut parts: Seq<Seq<char>> = seq![];
    let mut start: usize = 0;
    let mut i: usize = 0;
    assert(texts(paths@) =~= kept(parts));
    assert(data@.take(0) =~= seq![]);
    assert(parts.push(data@.subrange(0, 0)) =~= seq![Seq::<char>::empty()]);
    while i < chars.len()
        invariant
            chars@ == data@,
            start <= i <= chars@.len(),
            fields(data@.take(i as int)) == parts.push(data@.subrange(start as int, i as int)),
            texts(paths@) == kept(parts),
        decreases chars@.len() - i,
    {
        let ghost here = data@.subrange(start as int, i as int);
        let ghost next = data@.take(i + 1);
        assert(next.drop_last() =~= data@.take(i as int));
        assert(parts.push(here).drop_last() =~= parts);
        if chars[i] == ',' {
            push_path(&mut paths, data, &chars, start, i);
            proof {
                parts = parts.push(here);
                assert(data@.subrange(i + 1, i + 1) =~= seq![]);
            }
            start = i + 1;
        } else {
            assert(data@.subrange(start as int, i + 1) =~= here.push(data@[i as int]));
        }
        i = i + 1;
    }
    push_path(&mut paths, data, &chars, start, i);
    proof {
        let last = data@.subrange(start as int, i as int);
        assert(data@.take(i as int) =~= data@);
        assert(parts.push(last).drop_last() =~= parts);
    }
    paths
}

/// The parts between commas hold no comma.
proof fn lemma_no_comma(s: Seq<char>)
    ensures
        fields(s).len() > 0,
        forall|k: int, j: int|
            0 <= k < fields(s).len() && 0 <= j < fields(s)[k].len() ==> #[trigger] fields(s)[k][j]
                != ',',
    decreases s.len(),
{
    if s.len() > 0 {
        let before = fields(s.drop_last());
        lemma_no_comma(s.drop_last());
        assert forall|k: int, j: int|
            0 <= k < fields(s).len() && 0 <= j < fields(s)[k].len() implies #[trigger] fields(
            s,
        )[k][j] != ',' by {
            if k < before.len() && j < before[k].len() {
                assert(before[k][j] != ',');
            }
        }
    }
}

/// What is left without white space before it is the end of the text.
proof fn lemma_leading(s: Seq<char>) -> (from: int)
    ensures
        0 <= from <= s.len(),
        without_leading(s) == s.subrange(from, s.len() as int),
        without_leading(s).len() > 0 ==> !white(without_leading(s)[0]),
    decreases s.len(),
{
    if s.len() > 0 && white(s[0]) {
        let rest = s.subrange(1, s.len() as int);
        let from = lemma_leading(rest);
        assert(rest.subrange(from, rest.len() as int) =~= s.subrange(from + 1, s.len() as int));
        from + 1
    } else {
        assert(s.subrange(0, s.len() as int) =~= s);
        0
    }
}

/// What is left without white space behind it is the start of the text.
proof fn lemma_trailing(s: Seq<char>) -> (to: int)
    ensures
        0 <= to <= s.len(),
        without_trailing(s) == s.take(to),
        without_trailing(s).len() > 0 ==> !white(without_trailing(s).last()),
    decreases s.len(),
{
    if s.len() > 0 && white(s.last()) {
        let to = lemma_trailing(s.drop_last());
        assert(s.drop_last().take(to) =~= s.take(to));
        to
    } else {
        assert(s.take(s.len() as int) =~= s);
        s.len() as int
    }
}

/// What is kept comes from one of the parts.
proof fn lemma_kept(parts: Seq<Seq<char>>, i: int) -> (k: int)
    requires
        0 <= i < kept(parts).len(),
    ensures
        0 <= k < parts.len(),
        kept(parts)[i] == trimmed(parts[k]),
        kept(parts)[i].len() > 0,
    decreases parts.len(),
{
    let before = kept(parts.drop_last());
    if i < before.len() {
        let k = lemma_kept(parts.drop_last(), i);
        assert(parts.drop_last()[k] == parts[k]);
        k
    } else {
        parts.len() - 1
    }
}

/// A listed path is not empty, has no white space around it and no comma in it.
pub proof fn law_paths_are_clean(data: Seq<char>, i: int)
    requires
        0 <= i < listed(data).len(),
    ensures
        listed(data)[i].len() > 0,
        !white(listed(data)[i][0]),
        !white(listed(data)[i].last()),
        !listed(data)[i].contains(','),
{
    let parts = fields(data);
    let path = listed(data)[i];
    let k = lemma_kept(parts, i);
    lemma_no_comma(data);
    let lead = without_leading(parts[k]);
    let from = lemma_leading(parts[k]);
    let to = lemma_trailing(lead);
    assert forall|j: int| 0 <= j < path.len() implies #[trigger] path[j] != ',' by {
        assert(path[j] == fields(data)[k][from + j]);
    }
    assert(path[0] == lead[0]);
}

/// Texts with one comma between neighbours.
pub open spec fn with_commas(parts: Seq<Seq<char>>) -> Seq<char>
    decreases parts.len(),
{
    if parts.len() == 0 {
        seq![]
    } else if parts.len() == 1 {
        parts[0]
    } else {
        with_commas(parts.drop_last()) + seq![','] + parts.last()
    }
}

/// A list is cut at its commas and nowhere else: with the commas put back between the parts it is
/// the list again, no part has a comma in it, and a list without one is a single part.
pub proof fn law_lists_are_cut_at_commas_only(data: Seq<char>)
    ensures
        with_commas(fields(data)) == data,
        forall|k: int, j: int|
            0 <= k < fields(data).len() && 0 <= j < fields(data)[k].len()
                ==> #[trigger] fields(data)[k][j] != ',',
        !data.contains(',') ==> fields(data) == seq![data],
    decreases data.len(),
{
    lemma_no_comma(data);
    if data.len() == 0 {
        assert(with_commas(fields(data)) =~= data);
        assert(fields(data) =~= seq![data]);
    } else {
        let head = data.drop_last();
        let before = fields(head);
        law_lists_are_cut_at_commas_only(head);
        lemma_no_comma(head);
        if data.last() == ',' {
            assert(before.push(seq![]).drop_last() =~= before);
            assert(with_commas(fields(data)) =~= data);
            assert(data[data.len() - 1] == ',');
        } else {
            let after = fields(data);
            assert(after.drop_last() =~= before.drop_last());
            assert(after.last() == before.last().push(data.last()));
            assert(data =~= with_commas(before).push(data.last()));
            if before.len() == 1 {
                assert(after.len() == 1);
                assert(after[0] =~= data);
            } else {
                let parted = with_commas(before.drop_last()) + seq![','];
                assert(with_commas(before) == parted + before.last());
                assert(with_commas(after) == parted + after.last());
                assert(with_commas(after) =~= data);
            }
            if !data.contains(',') {
                assert forall|i: int| 0 <= i < head.len() implies head[i] != ',' by {
                    assert(head[i] == data[i]);
                }
                assert(!head.contains(','));
                assert(after =~= seq![data]);
            }
        }
    }
}

/// Trimming takes away white space at the two ends and nothing else.
pub proof fn law_trimming_takes_white_space_at_the_ends(part: Seq<char>) -> (ends: (int, int))
    ensures
        0 <= ends.0 <= ends.1 <= part.len(),
        trimmed(part) == part.subrange(ends.0, ends.1),
        forall|i: int| 0 <= i < ends.0 ==> white(#[trigger] part[i]),
        forall|i: int| ends.1 <= i < part.len() ==> white(#[trigger] part[i]),
        trimmed(part).len() > 0 ==> !white(trimmed(part)[0]) && !white(trimmed(part).last()),
        trimmed(part).len() == 0 <==> (forall|i: int|
            0 <= i < part.len() ==> white(#[trigger] part[i])),
{
    let lead = without_leading(part);
    let from = lemma_leading(part);
    let to = lemma_trailing(lead);
    lemma_leading_is_white(part, from);
    lemma_trailing_is_white(lead, to);
    assert(trimmed(part) =~= part.subrange(from, from + to));
    assert forall|i: int| from + to <= i < part.len() implies white(#[trigger] part[i]) by {
        assert(lead[i - from] == part[i]);
    }
    if to > 0 {
        assert(lead.take(to)[0] == lead[0]);
        assert(trimmed(part)[0] == part[from]);
    }
    (from, from + to)
}

/// What stands before the rest is white space.
proof fn lemma_leading_is_white(s: Seq<char>, from: int)
    requires
        0 <= from <= s.len(),
        without_leading(s).len() == s.len() - from,
    ensures
        forall|i: int| 0 <= i < from ==> white(#[trigger] s[i]),
    decreases s.len(),
{
    if s.len() > 0 && white(s[0]) {
        let rest = s.subrange(1, s.len() as int);
        let inner = lemma_leading(rest);
        lemma_leading_is_white(rest, from - 1);
        assert forall|i: int| 0 <= i < from implies white(#[trigger] s[i]) by {
            if i > 0 {
                assert(rest[i - 1] == s[i]);
            }
        }
    }
}

/// What stands behind the rest is white space.
proof fn lemma_trailing_is_white(s: Seq<char>, to: int)
    requires
        0 <= to <= s.len(),
        without_trailing(s).len() == to,
    ensures
        forall|i: int| to <= i < s.len() ==> white(#[trigger] s[i]),
    decreases s.len(),
{
    if s.len() > 0 && white(s.last()) {
        let head = s.drop_last();
        let inner = lemma_trailing(head);
        lemma_trailing_is_white(head, to);
        assert forall|i: int| to <= i < s.len() implies white(#[trigger] s[i]) by {
            if i < head.len() {
                assert(head[i] == s[i]);
            }
        }
    }
}

/// The listed paths are the parts in their order, trimmed, without those that are then empty.
pub proof fn law_paths_are_the_trimmed_parts(parts: Seq<Seq<char>>)
    ensures
        kept(parts) == parts.map_values(|part: Seq<char>| trimmed(part)).filter(
            |path: Seq<char>| path.len() > 0,
        ),
    decreases parts.len(),
{
    let trim = |part: Seq<char>| trimmed(part);
    let full = |path: Seq<char>| path.len() > 0;
    let all = parts.map_values(trim);
    reveal(Seq::filter);
    if parts.len() > 0 {
        law_paths_are_the_trimmed_parts(parts.drop_last());
        assert(all.drop_last() =~= parts.drop_last().map_values(trim));
        assert(all.last() == trimmed(parts.last()));
    }
}

/// The characters of a text that are neither white space nor commas.
pub open spec fn letters(s: Seq<char>) -> Seq<char>
    decreases s.len(),
{
    if s.len() == 0 {
        seq![]
    } else if s.last() == ',' || white(s.last()) {
        letters(s.drop_last())
    } else {
        letters(s.drop_last()).push(s.last())
    }
}

/// Of two texts in a row, the characters follow one another.
pub proof fn lemma_letters_joined(a: Seq<char>, b: Seq<char>)
    ensures
        letters(a + b) == letters(a) + letters(b),
    decreases b.len(),
{
    if b.len() == 0 {
        assert(a + b =~= a);
        assert(letters(a) + letters(b) =~= letters(a));
    } else {
        lemma_letters_joined(a, b.drop_last());
        assert((a + b).drop_last() =~= a + b.drop_last());
        assert(letters(a + b) =~= letters(a) + letters(b));
    }
}

/// White space has no such characters.
proof fn lemma_letters_of_white(s: Seq<char>)
    requires
        forall|i: int| 0 <= i < s.len() ==> white(#[trigger] s[i]),
    ensures
        letters(s) == Seq::<char>::empty(),
    decreases s.len(),
{
    if s.len() > 0 {
        assert(white(s[s.len() - 1]));
        assert forall|i: int| 0 <= i < s.drop_last().len() implies white(
            #[trigger] s.drop_last()[i],
        ) by {
            assert(s.drop_last()[i] == s[i]);
        }
        lemma_letters_of_white(s.drop_last());
    }
}

/// Trimming loses none of these characters.
proof fn lemma_letters_trimmed(part: Seq<char>)
    ensures
        letters(trimmed(part)) == letters(part),
{
    let (from, to) = law_trimming_takes_white_space_at_the_ends(part);
    let head = part.subrange(0, from);
    let middle = part.subrange(from, to);
    let tail = part.subrange(to, part.len() as int);
    assert(part =~= head + middle + tail);
    lemma_letters_joined(head + middle, tail);
    lemma_letters_joined(head, middle);
    lemma_letters_of_white(head);
    lemma_letters_of_white(tail);
    assert(letters(part) =~= letters(middle));
}

/// Texts in a row.
pub open spec fn in_a_row(texts: Seq<Seq<char>>) -> Seq<char>
    decreases texts.len(),
{
    if texts.len() == 0 {
        seq![]
    } else {
        in_a_row(texts.drop_last()) + texts.last()
    }
}

/// The kept parts have the characters of all parts.
proof fn lemma_letters_kept(parts: Seq<Seq<char>>)
    ensures
        letters(in_a_row(kept(parts))) == letters(in_a_row(parts)),
    decreases parts.len(),
{
    if parts.len() > 0 {
        let head = parts.drop_last();
        let before = kept(head);
        let part = trimmed(parts.last());
        lemma_letters_kept(head);
        lemma_letters_trimmed(parts.last());
        lemma_letters_joined(in_a_row(head), parts.last());
        if part.len() > 0 {
            assert(before.push(part).drop_last() =~= before);
            lemma_letters_joined(in_a_row(before), part);
        } else {
            assert(letters(part) =~= seq![]);
            assert(letters(in_a_row(head)) + letters(parts.last()) =~= letters(in_a_row(head)));
        }
    }
}

/// The commas add no such characters.
proof fn lemma_letters_with_commas(parts: Seq<Seq<char>>)
    ensures
        letters(with_commas(parts)) == letters(in_a_row(parts)),
    decreases parts.len(),
{
    if parts.len() == 1 {
        assert(in_a_row(parts.drop_last()) =~= seq![]);
        assert(in_a_row(parts) =~= parts[0]);
    } else if parts.len() > 1 {
        let head = parts.drop_last();
        lemma_letters_with_commas(head);
        let comma = seq![','];
        lemma_letters_joined(with_commas(head) + comma, parts.last());
        lemma_letters_joined(with_commas(head), comma);
        lemma_letters_joined(in_a_row(head), parts.last());
        assert(letters(comma.drop_last()) =~= seq![]);
        assert(comma.last() == ',');
        assert(letters(comma) =~= seq![]);
        assert(letters(with_commas(head)) + letters(comma) =~= letters(with_commas(head)));
    }
}

/// Every character of a list that is neither white space nor a comma appears in a listed path, in
/// order, and nothing else does.
pub proof fn law_nothing_of_a_list_is_lost(data: Seq<char>)
    ensures
        letters(in_a_row(listed(data))) == letters(data),
{
    law_lists_are_cut_at_commas_only(data);
    lemma_letters_kept(fields(data));
    lemma_letters_with_commas(fields(data));
}

} // verus!
