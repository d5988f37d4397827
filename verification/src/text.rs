//! Text: class lists, file names and numbers in messages.
use vstd::prelude::*;

verus! {

/// The pieces of a text between the occurrences of `separator`.
pub open spec fn pieces(text: Seq<char>, separator: char) -> Seq<Seq<char>>
    decreases text.len(),
{
    if text.len() == 0 {
        seq![Seq::empty()]
    } else {
        let before: Seq<Seq<char>> = pieces(text.drop_last(), separator);
        if text.last() == separator {
            before.push(Seq::empty())
        } else {
            before.drop_last().push(before.last().push(text.last()))
        }
    }
}

proof fn lemma_pieces_nonempty(text: Seq<char>, separator: char)
    ensures
        pieces(text, separator).len() > 0,
    decreases text.len(),
{
    if text.len() > 0 {
        lemma_pieces_nonempty(text.drop_last(), separator);
    }
}

/// The last piece of a text is what follows its last separator.
proof fn lemma_last_piece(text: Seq<char>, separator: char, start: nat)
    requires
        start <= text.len(),
        forall|i: int| start <= i < text.len() ==> text[i] != separator,
        start == 0 || text[start - 1] == separator,
    ensures
        pieces(text, separator).last() == text.skip(start as int),
        pieces(text, separator).drop_last() == if start == 0 {
            Seq::empty()
        } else {
            pieces(text.take(start - 1), separator)
        },
    decreases text.len(),
{
    lemma_pieces_nonempty(text, separator);
    if start == text.len() {
        assert(text.skip(start as int) =~= Seq::<char>::empty());
        if start > 0 {
            assert(text.drop_last() =~= text.take(start - 1));
            assert(pieces(text, separator).drop_last() =~= pieces(text.drop_last(), separator));
        } else {
            assert(pieces(text, separator).drop_last() =~= Seq::<Seq<char>>::empty());
        }
    } else {
        let shorter: Seq<char> = text.drop_last();
        lemma_last_piece(shorter, separator, start);
        lemma_pieces_nonempty(shorter, separator);
        assert(text.skip(start as int) =~= shorter.skip(start as int).push(text.last()));
        let before: Seq<Seq<char>> = pieces(shorter, separator);
        assert(pieces(text, separator).drop_last() =~= before.drop_last());
        if start > 0 {
            assert(shorter.take(start - 1) =~= text.take(start - 1));
        }
    }
}

/// The characters with the property White_Space.
pub open spec fn is_white_space(c: char) -> bool {
    let code: u32 = c as u32;
    ||| 0x9 <= code <= 0xd
    ||| code == 0x20
    ||| code == 0x85
    ||| code == 0xa0
    ||| code == 0x1680
    ||| 0x2000 <= code <= 0x200a
    ||| code == 0x2028
    ||| code == 0x2029
    ||| code == 0x202f
    ||| code == 0x205f
    ||| code == 0x3000
}

fn white_space(c: char) -> (white: bool)
    ensures
        white == is_white_space(c),
{
    let code: u32 = c as u32;
    (0x9 <= code && code <= 0xd) || code == 0x20 || code == 0x85 || code == 0xa0 || code == 0x1680
        || (0x2000 <= code && code <= 0x200a) || code == 0x2028 || code == 0x2029 || code == 0x202f
        || code == 0x205f || code == 0x3000
}

/// The text without the white space at its start.
pub open spec fn trim_start(text: Seq<char>) -> Seq<char>
    decreases text.len(),
{
    if text.len() > 0 && is_white_space(text[0]) {
        trim_start(text.drop_first())
    } else {
        text
    }
}

/// The text without the white space at its end.
pub open spec fn trim_end(text: Seq<char>) -> Seq<char>
    decreases text.len(),
{
    if text.len() > 0 && is_white_space(text.last()) {
        trim_end(text.drop_last())
    } else {
        text
    }
}

/// The text without the white space around it.
pub open spec fn trimmed(text: Seq<char>) -> Seq<char> {
    trim_end(trim_start(text))
}

/// The names in a class list: its lines, trimmed, without the empty ones.
pub open spec fn class_list(text: Seq<char>) -> Seq<Seq<char>> {
    pieces(text, '\n').map_values(|line: Seq<char>| trimmed(line)).filter(
        |name: Seq<char>| name.len() > 0,
    )
}

/// The texts of a list of strings.
pub open spec fn string_views(strings: Seq<String>) -> Seq<Seq<char>> {
    Seq::new(strings.len(), |i: int| strings[i]@)
}

/// The characters of a text.
fn characters(text: &str) -> (chars: Vec<char>)
    ensures
        chars@ == text@,
{
    let mut chars: Vec<char> = Vec::new();
    for c in it: text.chars()
        invariant
            chars@ == text@.take(it.index()),
            it.seq() == text@,
    {
        proof {
            assert(text@.take(it.index() + 1) =~= text@.take(it.index()).push(
                text@[it.index()],
            ));
        }
        chars.push(c);
    }
    proof {
        assert(text@.take(text@.len() as int) =~= text@);
    }
    chars
}

/// Where the trimmed text of a line starts and ends.
fn trim_bounds(chars: &Vec<char>, start: usize, end: usize) -> (bounds: (usize, usize))
    requires
        start <= end <= chars@.len(),
    ensures
        start <= bounds.0 <= bounds.1 <= end,
        chars@.subrange(bounds.0 as int, bounds.1 as int) == trimmed(
            chars@.subrange(start as int, end as int),
        ),
{
    let mut low: usize = start;
    while low < end && white_space(chars[low])
        invariant
            start <= low <= end <= chars@.len(),
            trim_start(chars@.subrange(start as int, end as int)) == trim_start(
                chars@.subrange(low as int, end as int),
            ),
        decreases end - low,
    {
        proof {
            assert(chars@.subrange(low as int, end as int).drop_first() =~= chars@.subrange(
                low + 1,
                end as int,
            ));
        }
        low = low + 1;
    }
    let mut high: usize = end;
    while high > low && white_space(chars[high - 1])
        invariant
            start <= low <= high <= end <= chars@.len(),
            trim_end(chars@.subrange(low as int, end as int)) == trim_end(
                chars@.subrange(low as int, high as int),
            ),
        decreases high - low,
    {
        proof {
            assert(chars@.subrange(low as int, high as int).drop_last() =~= chars@.subrange(
                low as int,
                high - 1,
            ));
        }
        high = high - 1;
    }
    (low, high)
}

/// The step from the pieces of a class list before a line to those with it.
proof fn lemma_class_list_step(before: Seq<Seq<char>>, line: Seq<char>)
    ensures
        ({
            let names: Seq<Seq<char>> = before.map_values(
                |line: Seq<char>| trimmed(line),
            ).filter(|name: Seq<char>| name.len() > 0);
            before.push(line).map_values(|line: Seq<char>| trimmed(line)).filter(
                |name: Seq<char>| name.len() > 0,
            ) == if trimmed(line).len() > 0 {
                names.push(trimmed(line))
            } else {
                names
            }
        }),
{
    reveal(Seq::filter);
    let all: Seq<Seq<char>> = before.push(line).map_values(|line: Seq<char>| trimmed(line));
    assert(all.drop_last() =~= before.map_values(|line: Seq<char>| trimmed(line)));
    assert(all.last() == trimmed(line));
}

/// Adds the name in a line, if there is one.
fn push_name(names: &mut Vec<String>, text: &str, chars: &Vec<char>, start: usize, end: usize)
    requires
        chars@ == text@,
        start <= end <= chars@.len(),
    ensures
        ({
            let name: Seq<char> = trimmed(text@.subrange(start as int, end as int));
            string_views(final(names)@) == if name.len() > 0 {
                string_views(old(names)@).push(name)
            } else {
                string_views(old(names)@)
            }
        }),
{
    let (low, high): (usize, usize) = trim_bounds(chars, start, end);
    if low < high {
        let name: String = text.substring_char(low, high).to_string();
        names.push(name);
        proof {
            assert(string_views(names@) =~= string_views(old(names)@).push(name@));
        }
    }
}

/// Reads a class list, one name to a line.
pub fn parse_classes(text: &str) -> (names: Vec<String>)
    ensures
        string_views(names@) == class_list(text@),
{
    let chars: Vec<char> = characters(text);
    let mut names: Vec<String> = Vec::new();
    let mut start: usize = 0;
    let mut i: usize = 0;
    let ghost mut before: Seq<Seq<char>> = Seq::empty();
    proof {
        reveal(Seq::filter);
        assert(string_views(names@) =~= Seq::<Seq<char>>::empty());
        assert(before.map_values(|line: Seq<char>| trimmed(line)) =~= Seq::<Seq<char>>::empty());
    }
    while i < chars.len()
        invariant
            chars@ == text@,
            start <= i <= chars@.len(),
            forall|k: int| start <= k < i ==> text@[k] != '\n',
            start == 0 || text@[start - 1] == '\n',
            before == if start == 0 {
                Seq::empty()
            } else {
                pieces(text@.take(start - 1), '\n')
            },
            string_views(names@) == before.map_values(|line: Seq<char>| trimmed(line)).filter(
                |name: Seq<char>| name.len() > 0,
            ),
        decreases chars@.len() - i,
    {
        if chars[i] == '\n' {
            push_name(&mut names, text, &chars, start, i);
            proof {
                let head: Seq<char> = text@.take(i as int);
                lemma_last_piece(head, '\n', start as nat);
                lemma_pieces_nonempty(head, '\n');
                assert(head.skip(start as int) =~= text@.subrange(start as int, i as int));
                if start > 0 {
                    assert(head.take(start - 1) =~= text@.take(start - 1));
                }
                let line: Seq<char> = text@.subrange(start as int, i as int);
                lemma_class_list_step(before, line);
                assert(pieces(head, '\n') =~= before.push(line));
                before = before.push(line);
            }
            start = i + 1;
        }
        i = i + 1;
    }
    push_name(&mut names, text, &chars, start, i);
    proof {
        lemma_last_piece(text@, '\n', start as nat);
        lemma_pieces_nonempty(text@, '\n');
        let line: Seq<char> = text@.subrange(start as int, i as int);
        assert(text@.skip(start as int) =~= line);
        lemma_class_list_step(before, line);
        assert(pieces(text@, '\n') =~= before.push(line));
    }
    names
}

/// The name of a class; empty for a class that the list does not name.
pub fn class_name<'a>(class_id: i64, classes: &'a [String]) -> (name: &'a str)
    ensures
        name@ == if 0 <= class_id < classes@.len() {
            classes@[class_id as int]@
        } else {
            Seq::empty()
        },
{
    if class_id >= 0 && (class_id as u64) < classes.len() as u64 {
        classes[class_id as usize].as_str()
    } else {
        proof {
            reveal_strlit("");
            assert(""@ =~= Seq::<char>::empty());
        }
        ""
    }
}

/// The last of the names in a path, unless it leads upwards.
pub open spec fn last_name(names: Seq<Seq<char>>) -> Seq<char>
    decreases names.len(),
{
    if names.len() == 0 {
        Seq::empty()
    } else if names.last().len() == 0 || names.last() == seq!['.'] {
        last_name(names.drop_last())
    } else if names.last() == seq!['.', '.'] {
        Seq::empty()
    } else {
        names.last()
    }
}

/// A path that means the same on Unix and on Windows: it holds no backslash, and
/// starts neither with a drive nor with two separators.
pub open spec fn is_portable(path: Seq<char>) -> bool {
    &&& !path.contains('\\')
    &&& path.len() >= 2 ==> path[1] != ':' && !(path[0] == '/' && path[1] == '/')
}

/// The text is a part of the path.
pub open spec fn is_part(text: Seq<char>, path: Seq<char>) -> bool {
    exists|start: int, end: int|
        0 <= start <= end <= path.len() && text == #[trigger] path.subrange(start, end)
}

/// Calls `std::path::Path::file_name`: the last component of the path, unless that
/// is the root, a prefix or `..`. It is a part of the path. What separates the
/// components, and what is a prefix, differs between Unix and Windows; of a
/// portable path the components are on both what stands between the `/`, without
/// the empty ones and without `.`. Of other paths no more is said.
#[verifier::external_body]
fn last_component(path: &str) -> (component: Option<String>)
    ensures
        component matches Some(name) ==> is_part(name@, path@),
        is_portable(path@) ==> match component {
            Some(name) => name@.len() > 0 && name@ == last_name(pieces(path@, '/')),
            None => last_name(pieces(path@, '/')).len() == 0,
        },
{
    match std::path::Path::new(path).file_name() {
        Some(name) => Some(name.to_string_lossy().into_owned()),
        None => None,
    }
}

/// The file name that the last component of a path gives; empty where there is
/// none.
pub fn component_name(component: Option<String>) -> (name: String)
    ensures
        name@ == match component {
            Some(name) => name@,
            None => Seq::empty(),
        },
{
    match component {
        Some(name) => name,
        None => String::new(),
    }
}

/// The file name at the end of a path, as the host separates paths; empty where
/// there is none.
pub fn file_name(path: &str) -> (name: String)
    ensures
        name@.len() == 0 || is_part(name@, path@),
        is_portable(path@) ==> name@ == last_name(pieces(path@, '/')),
{
    let name: String = component_name(last_component(path));
    proof {
        let none: Seq<char> = last_name(pieces(path@, '/'));
        if none.len() == 0 {
            assert(none =~= Seq::<char>::empty());
        }
    }
    name
}

/// The digits of a number.
pub open spec fn digits(value: nat) -> Seq<char>
    decreases value,
{
    if value < 10 {
        seq![(48 + value) as char]
    } else {
        digits(value / 10).push((48 + value % 10) as char)
    }
}

/// An integer in decimal notation.
pub open spec fn decimal(value: int) -> Seq<char> {
    if value < 0 {
        seq!['-'] + digits((-value) as nat)
    } else {
        digits(value as nat)
    }
}

/// A single digit, as text.
fn digit(value: u64) -> (text: &'static str)
    requires
        value < 10,
    ensures
        text@ == seq![(48 + value) as char],
{
    proof {
        reveal_strlit("0");
        reveal_strlit("1");
        reveal_strlit("2");
        reveal_strlit("3");
        reveal_strlit("4");
        reveal_strlit("5");
        reveal_strlit("6");
        reveal_strlit("7");
        reveal_strlit("8");
        reveal_strlit("9");
    }
    if value == 0 {
        "0"
    } else if value == 1 {
        "1"
    } else if value == 2 {
        "2"
    } else if value == 3 {
        "3"
    } else if value == 4 {
        "4"
    } else if value == 5 {
        "5"
    } else if value == 6 {
        "6"
    } else if value == 7 {
        "7"
    } else if value == 8 {
        "8"
    } else {
        "9"
    }
}

fn push_digits(text: &mut String, value: u64)
    ensures
        final(text)@ == old(text)@ + digits(value as nat),
    decreases value,
{
    if value >= 10 {
        push_digits(text, value / 10);
    }
    let ghost before: Seq<char> = text@;
    text.append(digit(value % 10));
    proof {
        if value >= 10 {
            assert(text@ =~= old(text)@ + digits(value as nat));
        }
    }
}

/// Appends an integer in decimal notation.
pub(crate) fn push_decimal(text: &mut String, value: i64)
    ensures
        final(text)@ == old(text)@ + decimal(value as int),
{
    if value < 0 {
        proof {
            reveal_strlit("-");
            assert("-"@ =~= seq!['-']);
        }
        text.append("-");
        push_digits(text, (-(value as i128)) as u64);
        proof {
            assert(text@ =~= old(text)@ + decimal(value as int));
        }
    } else {
        push_digits(text, value as u64);
    }
}

/// The pieces, with the separator between them.
pub open spec fn joined(parts: Seq<Seq<char>>, separator: char) -> Seq<char>
    decreases parts.len(),
{
    if parts.len() == 0 {
        Seq::empty()
    } else if parts.len() == 1 {
        parts[0]
    } else {
        joined(parts.drop_last(), separator).push(separator) + parts.last()
    }
}

/// The pieces of a text make up the text again, with the separators between them,
/// and none of them holds a separator. A text without separators is its only piece.
pub proof fn law_pieces_make_up_text(text: Seq<char>, separator: char)
    ensures
        pieces(text, separator).len() > 0,
        joined(pieces(text, separator), separator) == text,
        forall|i: int|
            0 <= i < pieces(text, separator).len() ==> !(#[trigger] pieces(
                text,
                separator,
            )[i]).contains(separator),
    decreases text.len(),
{
    if text.len() == 0 {
        assert(pieces(text, separator).len() == 1);
        assert(pieces(text, separator)[0] =~= text);
    } else {
        let shorter: Seq<char> = text.drop_last();
        let before: Seq<Seq<char>> = pieces(shorter, separator);
        let all: Seq<Seq<char>> = pieces(text, separator);
        law_pieces_make_up_text(shorter, separator);
        assert(text =~= shorter.push(text.last()));
        if text.last() == separator {
            assert(all.drop_last() =~= before);
            assert(joined(all, separator) =~= joined(before, separator).push(separator));
            assert forall|i: int| 0 <= i < all.len() implies !(#[trigger] all[i]).contains(
                separator,
            ) by {
                if i < before.len() {
                    assert(all[i] == before[i]);
                }
            }
        } else {
            let last: Seq<char> = before.last();
            assert(all.drop_last() =~= before.drop_last());
            assert(all.last() =~= last.push(text.last()));
            assert(joined(all, separator) =~= joined(before, separator).push(text.last()));
            assert forall|i: int| 0 <= i < all.len() implies !(#[trigger] all[i]).contains(
                separator,
            ) by {
                if i < before.len() - 1 {
                    assert(all[i] == before[i]);
                } else {
                    assert(!before[before.len() - 1].contains(separator));
                    assert forall|k: int| 0 <= k < all[i].len() implies all[i][k] != separator by {
                        if k < last.len() {
                            assert(last[k] != separator);
                        }
                    }
                }
            }
        }
    }
}

/// White space is a tab, a line break or another control of the kind, a space, or one
/// of a few other characters that are as blank.
pub proof fn law_white_space(c: char)
    ensures
        is_white_space(c) <==> set![
            '\u{9}',
            '\u{a}',
            '\u{b}',
            '\u{c}',
            '\u{d}',
            ' ',
            '\u{85}',
            '\u{a0}',
            '\u{1680}',
            '\u{2000}',
            '\u{2001}',
            '\u{2002}',
            '\u{2003}',
            '\u{2004}',
            '\u{2005}',
            '\u{2006}',
            '\u{2007}',
            '\u{2008}',
            '\u{2009}',
            '\u{200a}',
            '\u{2028}',
            '\u{2029}',
            '\u{202f}',
            '\u{205f}',
            '\u{3000}',
        ].contains(c),
{
}

/// A trimmed text is the part of the text that is left when the white space around it
/// is taken away: it neither starts nor ends with white space, and what stands before
/// and after it is nothing else. `start` and `end` are where it stands.
pub proof fn law_trimmed_part(text: Seq<char>) -> (bounds: (int, int))
    ensures
        ({
            let (start, end) = bounds;
            &&& 0 <= start <= end <= text.len()
            &&& trimmed(text) == text.subrange(start, end)
            &&& forall|i: int| 0 <= i < start ==> is_white_space(#[trigger] text[i])
            &&& forall|i: int| end <= i < text.len() ==> is_white_space(#[trigger] text[i])
            &&& start < end ==> !is_white_space(text[start]) && !is_white_space(text[end - 1])
        }),
{
    let start: int = lemma_trim_start(text);
    let rest: Seq<char> = text.skip(start);
    let length: int = lemma_trim_end(rest);
    let end: int = start + length;
    assert(rest.take(length) =~= text.subrange(start, end));
    assert forall|i: int| end <= i < text.len() implies is_white_space(#[trigger] text[i]) by {
        assert(rest[i - start] == text[i]);
    }
    if start < end {
        assert(rest[length - 1] == text[end - 1]);
    }
    (start, end)
}

proof fn lemma_trim_start(text: Seq<char>) -> (start: int)
    ensures
        0 <= start <= text.len(),
        trim_start(text) == text.skip(start),
        forall|i: int| 0 <= i < start ==> is_white_space(#[trigger] text[i]),
        start < text.len() ==> !is_white_space(text[start]),
    decreases text.len(),
{
    if text.len() > 0 && is_white_space(text[0]) {
        let rest: Seq<char> = text.drop_first();
        let start: int = lemma_trim_start(rest);
        assert(rest.skip(start) =~= text.skip(start + 1));
        assert forall|i: int| 0 <= i < start + 1 implies is_white_space(#[trigger] text[i]) by {
            if i > 0 {
                assert(rest[i - 1] == text[i]);
            }
        }
        start + 1
    } else {
        assert(text.skip(0) =~= text);
        0
    }
}

proof fn lemma_trim_end(text: Seq<char>) -> (end: int)
    ensures
        0 <= end <= text.len(),
        trim_end(text) == text.take(end),
        forall|i: int| end <= i < text.len() ==> is_white_space(#[trigger] text[i]),
        end > 0 ==> !is_white_space(text[end - 1]),
    decreases text.len(),
{
    if text.len() > 0 && is_white_space(text.last()) {
        let rest: Seq<char> = text.drop_last();
        let end: int = lemma_trim_end(rest);
        assert(rest.take(end) =~= text.take(end));
        assert forall|i: int| end <= i < text.len() implies is_white_space(#[trigger] text[i]) by {
            if i < rest.len() {
                assert(rest[i] == text[i]);
            }
        }
        end
    } else {
        assert(text.take(text.len() as int) =~= text);
        text.len() as int
    }
}

/// A class list is read line by line: the names in two texts with a line break between
/// them are those in the one and then those in the other, and a line holds its
/// trimmed text as a name, unless that is empty.
pub proof fn law_class_lists_are_read_by_lines(first: Seq<char>, second: Seq<char>, line: Seq<char>)
    requires
        !line.contains('\n'),
    ensures
        class_list(first.push('\n') + second) == class_list(first) + class_list(second),
        class_list(line) == if trimmed(line).len() > 0 {
            seq![trimmed(line)]
        } else {
            Seq::empty()
        },
{
    lemma_pieces_of_both(first, second, '\n');
    lemma_names_of_both(pieces(first, '\n'), pieces(second, '\n'));
    lemma_last_piece(line, '\n', 0);
    lemma_pieces_nonempty(line, '\n');
    let none: Seq<Seq<char>> = Seq::empty();
    lemma_class_list_step(none, line);
    assert(line.skip(0) =~= line);
    assert(pieces(line, '\n') =~= none.push(line));
    assert(none.map_values(|line: Seq<char>| trimmed(line)) =~= none);
    reveal(Seq::filter);
    if trimmed(line).len() > 0 {
        assert(none.push(trimmed(line)) =~= seq![trimmed(line)]);
    }
}

/// The pieces of two texts with a separator between them.
proof fn lemma_pieces_of_both(first: Seq<char>, second: Seq<char>, separator: char)
    ensures
        pieces(first.push(separator) + second, separator) == pieces(first, separator) + pieces(
            second,
            separator,
        ),
    decreases second.len(),
{
    let all: Seq<char> = first.push(separator) + second;
    if second.len() == 0 {
        assert(all =~= first.push(separator));
        assert(all.drop_last() =~= first);
        assert(pieces(first, separator) + pieces(second, separator) =~= pieces(
            first,
            separator,
        ).push(Seq::empty()));
    } else {
        lemma_pieces_of_both(first, second.drop_last(), separator);
        lemma_pieces_nonempty(second.drop_last(), separator);
        assert(all.drop_last() =~= first.push(separator) + second.drop_last());
        assert(pieces(all, separator) =~= pieces(first, separator) + pieces(second, separator));
    }
}

/// The names in the lines of two texts.
proof fn lemma_names_of_both(first: Seq<Seq<char>>, second: Seq<Seq<char>>)
    ensures
        (first + second).map_values(|line: Seq<char>| trimmed(line)).filter(
            |name: Seq<char>| name.len() > 0,
        ) == first.map_values(|line: Seq<char>| trimmed(line)).filter(
            |name: Seq<char>| name.len() > 0,
        ) + second.map_values(|line: Seq<char>| trimmed(line)).filter(
            |name: Seq<char>| name.len() > 0,
        ),
    decreases second.len(),
{
    let start: Seq<Seq<char>> = first.map_values(|line: Seq<char>| trimmed(line)).filter(
        |name: Seq<char>| name.len() > 0,
    );
    if second.len() == 0 {
        reveal(Seq::filter);
        assert(first + second =~= first);
        assert(second.map_values(|line: Seq<char>| trimmed(line)) =~= Seq::<Seq<char>>::empty());
        assert(start + Seq::<Seq<char>>::empty() =~= start);
    } else {
        let shorter: Seq<Seq<char>> = second.drop_last();
        let line: Seq<char> = second.last();
        lemma_names_of_both(first, shorter);
        lemma_class_list_step(first + shorter, line);
        lemma_class_list_step(shorter, line);
        assert((first + shorter).push(line) =~= first + second);
        assert(shorter.push(line) =~= second);
        let rest: Seq<Seq<char>> = shorter.map_values(|line: Seq<char>| trimmed(line)).filter(
            |name: Seq<char>| name.len() > 0,
        );
        assert((start + rest).push(trimmed(line)) =~= start + rest.push(trimmed(line)));
    }
}

/// The last name in a path is the last of its names that is neither empty nor `.`;
/// there is none where that leads upwards.
pub proof fn law_last_name(names: Seq<Seq<char>>, name: Seq<char>)
    ensures
        last_name(Seq::empty()) == Seq::<char>::empty(),
        name.len() == 0 || name == seq!['.'] ==> last_name(names.push(name)) == last_name(names),
        name == seq!['.', '.'] ==> last_name(names.push(name)) == Seq::<char>::empty(),
        name.len() > 0 && name != seq!['.'] && name != seq!['.', '.'] ==> last_name(
            names.push(name),
        ) == name,
{
    assert(names.push(name).drop_last() =~= names);
    assert(last_name(Seq::<Seq<char>>::empty()) == Seq::<char>::empty());
    if name == seq!['.'] {
        assert(name.len() == 1);
    }
}

/// The number that digits stand for.
pub open spec fn number_of(text: Seq<char>) -> nat
    decreases text.len(),
{
    if text.len() == 0 {
        0
    } else {
        (10 * number_of(text.drop_last()) + (text.last() as int - 48)) as nat
    }
}

/// The digits of a number stand for that number; all are digits, and the first is no
/// zero unless it is the only one.
pub proof fn law_digits_stand_for_number(value: nat)
    ensures
        number_of(digits(value)) == value,
        digits(value).len() > 0,
        forall|i: int|
            0 <= i < digits(value).len() ==> '0' <= #[trigger] digits(value)[i] <= '9',
        digits(value).len() > 1 ==> digits(value)[0] != '0',
        value > 0 ==> digits(value)[0] != '0',
    decreases value,
{
    if value < 10 {
        let text: Seq<char> = digits(value);
        assert(text.drop_last() =~= Seq::<char>::empty());
        assert(number_of(Seq::<char>::empty()) == 0);
    } else {
        let head: Seq<char> = digits(value / 10);
        law_digits_stand_for_number(value / 10);
        assert(digits(value).drop_last() =~= head);
        assert forall|i: int| 0 <= i < digits(value).len() implies '0' <= #[trigger] digits(
            value,
        )[i] <= '9' by {
            if i < head.len() {
                assert(digits(value)[i] == head[i]);
            }
        }
        assert(digits(value)[0] == head[0]);
    }
}

/// A number in decimal notation is its digits, after a minus sign where it is
/// negative.
pub proof fn law_decimal_stands_for_number(value: int)
    ensures
        value >= 0 ==> number_of(decimal(value)) == value && decimal(value)[0] != '-',
        value < 0 ==> decimal(value).len() > 1 && decimal(value)[0] == '-' && number_of(
            decimal(value).skip(1),
        ) == -value,
        value >= 0 ==> decimal(value) == digits(value as nat),
        value < 0 ==> decimal(value).skip(1) == digits((-value) as nat),
{
    if value < 0 {
        law_digits_stand_for_number((-value) as nat);
        assert(decimal(value).skip(1) =~= digits((-value) as nat));
    } else {
        law_digits_stand_for_number(value as nat);
    }
}


/// The texts of a list of strings are theirs, one for one.
pub proof fn law_string_views(strings: Seq<String>)
    ensures
        string_views(strings).len() == strings.len(),
        forall|i: int| 0 <= i < strings.len() ==> string_views(strings)[i] == #[trigger] strings[i]@,
{
}

} // verus!
