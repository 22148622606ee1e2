//! Text as character sequences: splitting, digits and decimal numbers.
use vstd::prelude::*;

verus! {

/// `String::push` of the standard library appends one character and changes
/// nothing else.
pub assume_specification[ String::push ](string: &mut String, c: char)
    ensures
        final(string)@ == old(string)@.push(c),
;

/// The pieces of a text between separators; a text without one is one piece.
pub open spec fn split(text: Seq<char>, separator: char) -> Seq<Seq<char>>
    decreases text.len(),
{
    if text.len() == 0 {
        seq![Seq::<char>::empty()]
    } else {
        let parts = split(text.drop_last(), separator);
        if text.last() == separator {
            parts.push(Seq::<char>::empty())
        } else {
            parts.drop_last().push(parts.last().push(text.last()))
        }
    }
}

pub proof fn split_has_a_piece(text: Seq<char>, separator: char)
    ensures
        split(text, separator).len() >= 1,
    decreases text.len(),
{
    if text.len() > 0 {
        split_has_a_piece(text.drop_last(), separator);
    }
}

/// Text without a separator only lengthens the last piece.
pub proof fn split_extends_the_last_piece(text: Seq<char>, more: Seq<char>, separator: char)
    requires
        !more.contains(separator),
    ensures
        split(text + more, separator) == split(text, separator).drop_last().push(
            split(text, separator).last() + more,
        ),
    decreases more.len(),
{
    split_has_a_piece(text, separator);
    if more.len() == 0 {
        assert(text + more =~= text);
        assert(split(text, separator).last() + more =~= split(text, separator).last());
        assert(split(text, separator).drop_last().push(split(text, separator).last()) =~= split(
            text,
            separator,
        ));
    } else {
        let less = more.drop_last();
        assert(more[more.len() - 1] == more.last());
        assert forall|i: int| 0 <= i < less.len() implies less[i] != separator by {
            assert(less[i] == more[i]);
        }
        split_extends_the_last_piece(text, less, separator);
        assert((text + more).drop_last() =~= text + less);
        assert((split(text, separator).last() + less).push(more.last()) =~= split(
            text,
            separator,
        ).last() + more);
        assert(split(text + more, separator) =~= split(text, separator).drop_last().push(
            split(text, separator).last() + more,
        ));
    }
}

/// The views of a list of character vectors.
pub open spec fn pieces(parts: Seq<Vec<char>>) -> Seq<Seq<char>> {
    parts.map_values(|part: Vec<char>| part@)
}

/// The characters of a text.
pub fn chars_of(text: &str) -> (r: Vec<char>)
    ensures
        r@ == text@,
{
    let mut out: Vec<char> = Vec::new();
    for c in it: text.chars()
        invariant
            it.seq() == text@,
            out@ == text@.take(it.index() as int),
    {
        out.push(c);
        assert(out@ =~= text@.take(it.index() as int + 1));
    }
    assert(out@ =~= text@);
    out
}

pub fn split_chars(text: &[char], separator: char) -> (r: Vec<Vec<char>>)
    ensures
        pieces(r@) == split(text@, separator),
{
    let mut parts: Vec<Vec<char>> = Vec::new();
    let mut current: Vec<char> = Vec::new();
    let mut i: usize = 0;
    assert(pieces(parts@).push(current@) =~= split(text@.take(0), separator));
    while i < text.len()
        invariant
            i <= text@.len(),
            pieces(parts@).push(current@) == split(text@.take(i as int), separator),
        decreases text@.len() - i,
    {
        let ghost before = pieces(parts@).push(current@);
        assert(text@.take(i + 1).drop_last() =~= text@.take(i as int));
        assert(before.drop_last() =~= pieces(parts@));
        let c = text[i];
        if c == separator {
            let ghost done = parts@;
            parts.push(current);
            current = Vec::new();
            assert(pieces(parts@) =~= before);
        } else {
            current.push(c);
        }
        assert(pieces(parts@).push(current@) =~= split(text@.take(i + 1), separator));
        i += 1;
    }
    assert(text@.take(i as int) =~= text@);
    let ghost whole = pieces(parts@).push(current@);
    parts.push(current);
    assert(pieces(parts@) =~= whole);
    parts
}

/// Two texts, one behind the other.
pub fn concat(front: &str, back: &str) -> (r: String)
    ensures
        r@ == front@ + back@,
{
    let mut out: String = String::from_str(front);
    out.append(back);
    out
}

/// A number in decimal digits, without leading zeros.
pub open spec fn decimal(value: nat) -> Seq<char>
    decreases value,
{
    let digit = (48 + value % 10) as char;
    if value < 10 {
        seq![digit]
    } else {
        decimal(value / 10).push(digit)
    }
}

pub fn decimal_text(value: u64) -> (r: String)
    ensures
        r@ == decimal(value as nat),
    decreases value,
{
    let digit: char = (48 + value % 10) as u8 as char;
    let mut out: String = if value < 10 {
        String::new()
    } else {
        decimal_text(value / 10)
    };
    out.push(digit);
    assert(out@ =~= decimal(value as nat));
    out
}

/// Whether two texts hold the same characters.
pub fn same_text(a: &str, b: &str) -> (r: bool)
    ensures
        r == (a@ == b@),
{
    let left: String = String::from_str(a);
    let right: String = String::from_str(b);
    left == right
}

/// A text as the standard library's `Debug` writes it, quoted and escaped.
pub uninterp spec fn debug_form(text: Seq<char>) -> Seq<char>;

/// `Debug` of `str` writes a text in quotes, with escapes that depend on the text
/// alone; the escapes are only named here.
#[verifier::external_body]
pub(crate) fn debug_text(text: &str) -> (r: String)
    ensures
        r@ == debug_form(text@),
{
    format!("{text:?}")
}

/// Pieces with a separator between each two of them.
pub open spec fn joined(parts: Seq<Seq<char>>, separator: char) -> Seq<char>
    decreases parts.len(),
{
    if parts.len() == 0 {
        Seq::empty()
    } else if parts.len() == 1 {
        parts[0]
    } else {
        joined(parts.drop_last(), separator).push(separator) + parts.last()
    }
}

/// Joined pieces come apart into the same pieces.
pub proof fn joined_pieces_come_apart(parts: Seq<Seq<char>>, separator: char)
    requires
        parts.len() >= 1,
        forall|i: int| 0 <= i < parts.len() ==> !(#[trigger] parts[i]).contains(separator),
    ensures
        split(joined(parts, separator), separator) == parts,
    decreases parts.len(),
{
    let last = parts.last();
    assert(!parts[parts.len() - 1].contains(separator));
    if parts.len() == 1 {
        split_extends_the_last_piece(Seq::empty(), last, separator);
        assert(Seq::<char>::empty() + last =~= last);
        assert(split(last, separator) =~= parts);
    } else {
        let less = parts.drop_last();
        assert forall|i: int| 0 <= i < less.len() implies !(#[trigger] less[i]).contains(
            separator,
        ) by {
            assert(less[i] == parts[i]);
        }
        joined_pieces_come_apart(less, separator);
        let front = joined(less, separator).push(separator);
        assert(front.drop_last() =~= joined(less, separator));
        assert(split(front, separator) == less.push(Seq::empty()));
        split_extends_the_last_piece(front, last, separator);
        assert(Seq::<char>::empty() + last =~= last);
        assert(less.push(Seq::<char>::empty()).drop_last() =~= less);
        assert(less.push(last) =~= parts);
    }
}

/// The pieces of a text hold no separator, and make the text when they are joined.
pub proof fn pieces_join_to_the_text(text: Seq<char>, separator: char)
    ensures
        split(text, separator).len() >= 1,
        joined(split(text, separator), separator) == text,
        forall|i: int|
            0 <= i < split(text, separator).len() ==> !(#[trigger] split(
                text,
                separator,
            )[i]).contains(separator),
    decreases text.len(),
{
    let parts = split(text, separator);
    if text.len() == 0 {
        assert(text =~= Seq::empty());
    } else {
        let less = text.drop_last();
        let c = text.last();
        let before = split(less, separator);
        pieces_join_to_the_text(less, separator);
        if c == separator {
            assert(parts.drop_last() =~= before);
            assert(joined(parts, separator) =~= text);
        } else {
            let longer = before.last().push(c);
            assert(parts.drop_last() =~= before.drop_last());
            assert(parts.last() == longer);
            assert(!before[before.len() - 1].contains(separator));
            assert(!longer.contains(separator)) by {
                if longer.contains(separator) {
                    let k = choose|k: int| 0 <= k < longer.len() && longer[k] == separator;
                    assert(before.last()[k] == separator);
                }
            }
            assert forall|i: int| 0 <= i < parts.len() implies !(#[trigger] parts[i]).contains(
                separator,
            ) by {
                if i < parts.len() - 1 {
                    assert(parts[i] == before[i]);
                }
            }
            assert(less.push(c) =~= text);
            if before.len() == 1 {
                assert(joined(before, separator) == before[0]);
                assert(joined(parts, separator) == longer);
            } else {
                let front = joined(before.drop_last(), separator).push(separator);
                assert(joined(before, separator) == front + before.last());
                assert(joined(parts, separator) == front + longer);
                assert(front + longer =~= (front + before.last()).push(c));
            }
        }
    }
}

} // verus!
