//! Bounded DNS label decoding, presentation and case-insensitive suffix matching.
//!
//! Wire labels may contain arbitrary octets. Configuration names intentionally
//! use a narrower ASCII syntax, while equality preserves DNS label boundaries.
use crate::bytes::{self, fold, push_slice};
use crate::dns::error::ParseError;
use crate::text::{self, chars_of, split_chars};
use vstd::prelude::*;
use vstd::slice::{slice_subrange, slice_to_vec};

verus! {

pub const MAX_LABEL_LENGTH: usize = 63;

pub const MAX_NAME_LENGTH: usize = 255;

pub const MAX_POINTERS: usize = 128;

/// The uncompressed wire form of a name: each label behind its length, then the root.
pub open spec fn encoded(labels: Seq<Seq<u8>>) -> Seq<u8>
    decreases labels.len(),
{
    if labels.len() == 0 {
        seq![0u8]
    } else {
        seq![labels[0].len() as u8] + labels[0] + encoded(labels.drop_first())
    }
}

/// A name that fits the wire: labels of 1 to 63 octets, at most 255 octets in all.
pub open spec fn name_ok(labels: Seq<Seq<u8>>) -> bool {
    &&& forall|i: int| 0 <= i < labels.len() ==> 1 <= (#[trigger] labels[i]).len() <= 63
    &&& encoded(labels).len() <= 255
}

/// A label with its ASCII capital letters made small.
pub open spec fn fold_label(label: Seq<u8>) -> Seq<u8> {
    label.map_values(|b: u8| bytes::fold_byte(b))
}

/// A name with the ASCII capital letters of all its labels made small.
pub open spec fn fold_name(labels: Seq<Seq<u8>>) -> Seq<Seq<u8>> {
    labels.map_values(|label: Seq<u8>| fold_label(label))
}

/// Two names are the same when they differ in ASCII case at most.
pub open spec fn same_name(a: Seq<Seq<u8>>, b: Seq<Seq<u8>>) -> bool {
    fold_name(a) == fold_name(b)
}

/// A name is at or below a suffix when its last labels are those of the suffix.
pub open spec fn within(name: Seq<Seq<u8>>, suffix: Seq<Seq<u8>>) -> bool {
    &&& name.len() >= suffix.len()
    &&& same_name(name.skip(name.len() - suffix.len()), suffix)
}

/// Reads the labels that a name has from `at` on, and the position behind the
/// name where it started.
///
/// `expanded` octets of the name are already spent, and `visited` holds the
/// targets of the pointers that were followed.
pub open spec fn labels_at(
    wire: Seq<u8>,
    at: int,
    expanded: int,
    visited: Seq<int>,
) -> Result<(Seq<Seq<u8>>, int), ParseError>
    decreases 255 - expanded, 128 - visited.len(),
{
    if !(0 <= at < wire.len()) {
        Err(ParseError::UnexpectedEnd)
    } else if wire[at] >= 192 {
        let target = (wire[at] - 192) * 256 + wire[at + 1];
        if at + 1 >= wire.len() {
            Err(ParseError::UnexpectedEnd)
        } else if visited.contains(target) {
            Err(ParseError::CompressionLoop)
        } else if target < 12 || target >= at {
            Err(ParseError::InvalidPointer)
        } else if visited.len() >= 128 {
            Err(ParseError::CompressionDepth)
        } else {
            match labels_at(wire, target, expanded, visited.push(target)) {
                Ok((labels, _)) => Ok((labels, at + 2)),
                Err(error) => Err(error),
            }
        }
    } else if wire[at] >= 64 {
        Err(ParseError::InvalidLabel)
    } else if wire[at] == 0 {
        Ok((Seq::<Seq<u8>>::empty(), at + 1))
    } else if expanded + wire[at] + 1 > 255 {
        Err(ParseError::NameTooLong)
    } else if at + 1 + wire[at] > wire.len() {
        Err(ParseError::UnexpectedEnd)
    } else {
        match labels_at(wire, at + 1 + wire[at], expanded + wire[at] + 1, visited) {
            Ok((labels, end)) => Ok(
                (seq![wire.subrange(at + 1, at + 1 + wire[at])] + labels, end),
            ),
            Err(error) => Err(error),
        }
    }
}

/// The name encoded at a position of a message, and the position behind it.
pub open spec fn name_at(wire: Seq<u8>, at: int) -> Result<(Seq<Seq<u8>>, int), ParseError> {
    labels_at(wire, at, 1, Seq::empty())
}

/// Labels that were read before, and the end that a first pointer fixed, in
/// front of what is still to be read.
spec fn resume(
    labels: Seq<Seq<u8>>,
    end: Option<int>,
    rest: Result<(Seq<Seq<u8>>, int), ParseError>,
) -> Result<(Seq<Seq<u8>>, int), ParseError> {
    match rest {
        Ok((more, after)) => Ok(
            (
                labels + more,
                match end {
                    Some(fixed) => fixed,
                    None => after,
                },
            ),
        ),
        Err(error) => Err(error),
    }
}

proof fn encoded_push(labels: Seq<Seq<u8>>, label: Seq<u8>)
    ensures
        encoded(labels.push(label)).len() == encoded(labels).len() + label.len() + 1,
    decreases labels.len(),
{
    if labels.len() == 0 {
        assert(labels.push(label).drop_first() =~= labels);
    } else {
        assert(labels.push(label).drop_first() =~= labels.drop_first().push(label));
        encoded_push(labels.drop_first(), label);
    }
}

/// A character of a configuration label.
pub open spec fn plain_char(c: char) -> bool {
    'a' <= c <= 'z' || 'A' <= c <= 'Z' || '0' <= c <= '9' || c == '-' || c == '_'
}

/// A label in configuration syntax.
pub open spec fn plain_label(label: Seq<char>) -> bool {
    &&& 1 <= label.len() <= 63
    &&& forall|i: int| 0 <= i < label.len() ==> plain_char(#[trigger] label[i])
}

/// The octets of an ASCII label.
pub open spec fn ascii(label: Seq<char>) -> Seq<u8> {
    label.map_values(|c: char| c as u8)
}

/// The labels of the pieces of a configuration name, of which `used` octets of
/// the wire form are already spent.
pub open spec fn text_labels(parts: Seq<Seq<char>>, used: int) -> Result<Seq<Seq<u8>>, ParseError>
    decreases parts.len(),
{
    if parts.len() == 0 {
        Ok(Seq::empty())
    } else if !plain_label(parts[0]) {
        Err(ParseError::InvalidLabel)
    } else if used + parts[0].len() + 1 > 255 {
        Err(ParseError::NameTooLong)
    } else {
        match text_labels(parts.drop_first(), used + parts[0].len() + 1) {
            Ok(labels) => Ok(seq![ascii(parts[0])] + labels),
            Err(error) => Err(error),
        }
    }
}

/// A text without one final dot.
pub open spec fn without_final_dot(text: Seq<char>) -> Seq<char> {
    if text.len() > 0 && text.last() == '.' {
        text.drop_last()
    } else {
        text
    }
}

/// The name that a configuration text stands for.
pub open spec fn text_name(text: Seq<char>) -> Result<Seq<Seq<u8>>, ParseError> {
    if text == seq!['.'] {
        Ok(Seq::empty())
    } else {
        text_labels(text::split(without_final_dot(text), '.'), 1)
    }
}

/// One octet of a label in presentation form: itself, or its decimal value
/// behind a backslash.
pub open spec fn shown_byte(b: u8) -> Seq<char> {
    if plain_char(b as char) {
        seq![b as char]
    } else {
        seq!['\\', digit(b / 100), digit(b / 10 % 10), digit(b % 10)]
    }
}

/// A decimal digit.
pub open spec fn digit(value: u8) -> char {
    (48 + value) as char
}

pub open spec fn shown_label(label: Seq<u8>) -> Seq<char>
    decreases label.len(),
{
    if label.len() == 0 {
        Seq::empty()
    } else {
        shown_label(label.drop_last()) + shown_byte(label.last())
    }
}

pub open spec fn shown_labels(labels: Seq<Seq<u8>>) -> Seq<char>
    decreases labels.len(),
{
    if labels.len() == 0 {
        Seq::empty()
    } else {
        shown_labels(labels.drop_last()) + shown_label(labels.last()) + seq!['.']
    }
}

/// A name in presentation form, with a final dot.
pub open spec fn shown(labels: Seq<Seq<u8>>) -> Seq<char> {
    if labels.len() == 0 {
        seq!['.']
    } else {
        shown_labels(labels)
    }
}

proof fn encoded_labels_read_back(
    wire: Seq<u8>,
    at: int,
    labels: Seq<Seq<u8>>,
    expanded: int,
    visited: Seq<int>,
)
    requires
        0 <= at,
        at + encoded(labels).len() <= wire.len(),
        wire.subrange(at, at + encoded(labels).len()) == encoded(labels),
        forall|i: int| 0 <= i < labels.len() ==> 1 <= (#[trigger] labels[i]).len() <= 63,
        0 < expanded,
        expanded + encoded(labels).len() - 1 <= 255,
    ensures
        labels_at(wire, at, expanded, visited) == Ok::<(Seq<Seq<u8>>, int), ParseError>(
            (labels, at + encoded(labels).len()),
        ),
    decreases labels.len(),
{
    let form = encoded(labels);
    let window = wire.subrange(at, at + form.len());
    assert(window[0] == wire[at]);
    if labels.len() == 0 {
        assert(labels =~= Seq::empty());
    } else {
        let first = labels[0];
        let rest = labels.drop_first();
        assert(form[0] == first.len() as u8);
        assert(wire.subrange(at + 1, at + 1 + first.len()) =~= first) by {
            assert forall|k: int| 0 <= k < first.len() implies wire[at + 1 + k] == first[k] by {
                assert(window[k + 1] == form[k + 1]);
            }
        }
        assert(wire.subrange(
            at + 1 + first.len(),
            at + 1 + first.len() + encoded(rest).len(),
        ) =~= encoded(rest)) by {
            assert forall|k: int| 0 <= k < encoded(rest).len() implies wire[at + 1 + first.len()
                + k] == encoded(rest)[k] by {
                assert(window[k + 1 + first.len()] == form[k + 1 + first.len()]);
            }
        }
        assert forall|i: int| 0 <= i < rest.len() implies 1 <= (#[trigger] rest[i]).len()
            <= 63 by {
            assert(rest[i] == labels[i + 1]);
        }
        encoded_labels_read_back(
            wire,
            at + 1 + first.len(),
            rest,
            expanded + first.len() + 1,
            visited,
        );
        assert(seq![first] + rest =~= labels);
    }
}

/// A name that was written uncompressed reads back unchanged, whatever stands
/// around it.
pub proof fn encoded_name_reads_back(before: Seq<u8>, labels: Seq<Seq<u8>>, after: Seq<u8>)
    requires
        name_ok(labels),
    ensures
        name_at(before + encoded(labels) + after, before.len() as int) == Ok::<
            (Seq<Seq<u8>>, int),
            ParseError,
        >((labels, (before.len() + encoded(labels).len()) as int)),
{
    let wire = before + encoded(labels) + after;
    let at = before.len() as int;
    assert(wire.subrange(at, at + encoded(labels).len()) =~= encoded(labels));
    encoded_labels_read_back(wire, before.len() as int, labels, 1, Seq::empty());
}

proof fn encoded_prepend(label: Seq<u8>, labels: Seq<Seq<u8>>)
    ensures
        encoded(seq![label] + labels).len() == encoded(labels).len() + label.len() + 1,
{
    assert((seq![label] + labels).drop_first() =~= labels);
}

proof fn decoded_labels_fit(wire: Seq<u8>, at: int, expanded: int, visited: Seq<int>)
    requires
        0 < expanded <= 255,
    ensures
        labels_at(wire, at, expanded, visited) matches Ok((labels, end)) ==> {
            &&& forall|i: int| 0 <= i < labels.len() ==> 1 <= (#[trigger] labels[i]).len() <= 63
            &&& expanded + encoded(labels).len() - 1 <= 255
            &&& 0 <= at < end <= wire.len()
        },
    decreases 255 - expanded, 128 - visited.len(),
{
    if 0 <= at < wire.len() {
        if wire[at] >= 192 {
            let target = (wire[at] - 192) * 256 + wire[at + 1];
            if at + 1 < wire.len() && !visited.contains(target) && 12 <= target < at
                && visited.len() < 128 {
                decoded_labels_fit(wire, target, expanded, visited.push(target));
            }
        } else if 0 < wire[at] < 64 && expanded + wire[at] + 1 <= 255 && at + 1 + wire[at]
            <= wire.len() {
            let next = at + 1 + wire[at];
            decoded_labels_fit(wire, next, expanded + wire[at] + 1, visited);
            match labels_at(wire, next, expanded + wire[at] + 1, visited) {
                Ok((labels, _)) => {
                    encoded_prepend(wire.subrange(at + 1, next), labels);
                },
                Err(_) => {},
            }
        }
    }
}

/// A name that decodes fits the wire limits, however it was compressed, and
/// what it occupies lies inside the message.
pub proof fn decoded_name_fits(wire: Seq<u8>, at: int)
    ensures
        name_at(wire, at) matches Ok((labels, end)) ==> name_ok(labels) && 0 <= at < end
            <= wire.len(),
{
    decoded_labels_fit(wire, at, 1, Seq::empty());
}

/// Sameness of names is an equivalence.
pub proof fn same_name_is_an_equivalence(a: Seq<Seq<u8>>, b: Seq<Seq<u8>>, c: Seq<Seq<u8>>)
    ensures
        same_name(a, a),
        same_name(a, b) ==> same_name(b, a),
        same_name(a, b) && same_name(b, c) ==> same_name(a, c),
{
}

/// Every name is at or below itself and at or below the root.
pub proof fn every_name_is_within_itself_and_the_root(name: Seq<Seq<u8>>)
    ensures
        within(name, name),
        within(name, Seq::empty()),
{
    assert(name.skip(0) =~= name);
    assert(fold_name(name.skip(name.len() as int)) =~= fold_name(Seq::empty()));
}

proof fn fold_skip(name: Seq<Seq<u8>>, n: int)
    requires
        0 <= n <= name.len(),
    ensures
        fold_name(name.skip(n)) == fold_name(name).skip(n),
{
    assert(fold_name(name.skip(n)) =~= fold_name(name).skip(n));
}

/// What is below a suffix is below everything that the suffix is below.
pub proof fn within_is_transitive(name: Seq<Seq<u8>>, middle: Seq<Seq<u8>>, top: Seq<Seq<u8>>)
    requires
        within(name, middle),
        within(middle, top),
    ensures
        within(name, top),
{
    let n = name.len() - middle.len();
    let m = middle.len() - top.len();
    fold_skip(name, n);
    fold_skip(middle, m);
    fold_skip(name, n + m);
    assert(fold_name(name).skip(n).skip(m) =~= fold_name(name).skip(n + m));
}

/// Two names that are below each other are the same.
pub proof fn within_each_other_is_sameness(a: Seq<Seq<u8>>, b: Seq<Seq<u8>>)
    ensures
        within(a, b) && within(b, a) <==> same_name(a, b),
{
    assert(a.skip(0) =~= a);
    assert(b.skip(0) =~= b);
    assert(fold_name(a).len() == a.len());
    assert(fold_name(b).len() == b.len());
}

/// The characters of a label of configuration characters.
spec fn label_chars(label: Seq<u8>) -> Seq<char> {
    label.map_values(|b: u8| b as char)
}

/// A label whose octets are configuration characters.
pub open spec fn plain_bytes(label: Seq<u8>) -> bool {
    forall|i: int| 0 <= i < label.len() ==> plain_char((#[trigger] label[i]) as char)
}

proof fn plain_label_is_shown_as_it_is(label: Seq<u8>)
    requires
        plain_bytes(label),
    ensures
        shown_label(label) == label_chars(label),
    decreases label.len(),
{
    if label.len() == 0 {
        assert(label_chars(label) =~= Seq::empty());
    } else {
        let less = label.drop_last();
        assert forall|i: int| 0 <= i < less.len() implies plain_char(
            (#[trigger] less[i]) as char,
        ) by {
            assert(less[i] == label[i]);
        }
        plain_label_is_shown_as_it_is(less);
        assert(plain_char(label[label.len() - 1] as char));
        assert(shown_label(label) =~= label_chars(label));
    }
}

proof fn plain_label_has_no_dot(label: Seq<u8>)
    requires
        plain_bytes(label),
    ensures
        !label_chars(label).contains('.'),
        label_chars(label).len() >= 1 && label.len() <= 63 ==> plain_label(label_chars(label)),
        ascii(label_chars(label)) == label,
{
    let chars = label_chars(label);
    assert forall|i: int| 0 <= i < chars.len() implies plain_char(#[trigger] chars[i]) by {
        assert(plain_char(label[i] as char));
    }
    assert(ascii(chars) =~= label);
}

proof fn shown_labels_split_into_labels(labels: Seq<Seq<u8>>)
    requires
        forall|i: int| 0 <= i < labels.len() ==> plain_bytes(#[trigger] labels[i]),
    ensures
        text::split(shown_labels(labels), '.') == labels.map_values(
            |label: Seq<u8>| label_chars(label),
        ).push(Seq::empty()),
    decreases labels.len(),
{
    let chars = labels.map_values(|label: Seq<u8>| label_chars(label));
    if labels.len() == 0 {
        assert(chars.push(Seq::empty()) =~= seq![Seq::<char>::empty()]);
    } else {
        let less = labels.drop_last();
        assert forall|i: int| 0 <= i < less.len() implies plain_bytes(#[trigger] less[i]) by {
            assert(less[i] == labels[i]);
        }
        shown_labels_split_into_labels(less);
        assert(plain_bytes(labels[labels.len() - 1]));
        let label = labels.last();
        plain_label_is_shown_as_it_is(label);
        plain_label_has_no_dot(label);
        let head = shown_labels(less);
        text::split_extends_the_last_piece(head, label_chars(label), '.');
        let less_chars = less.map_values(|label: Seq<u8>| label_chars(label));
        assert(less_chars.push(Seq::empty()).drop_last() =~= less_chars);
        assert(Seq::<char>::empty() + label_chars(label) =~= label_chars(label));
        assert(text::split(head + label_chars(label), '.') =~= chars) by {
            assert(less_chars.push(label_chars(label)) =~= chars);
        }
        assert(shown_labels(labels).drop_last() =~= head + label_chars(label));
        assert(shown_labels(labels).last() == '.');
    }
}

proof fn plain_pieces_are_labels(labels: Seq<Seq<u8>>, used: int)
    requires
        forall|i: int|
            0 <= i < labels.len() ==> plain_bytes(#[trigger] labels[i]) && 1 <= labels[i].len()
                <= 63,
        used + encoded(labels).len() - 1 <= 255,
    ensures
        text_labels(labels.map_values(|label: Seq<u8>| label_chars(label)), used) == Ok::<
            Seq<Seq<u8>>,
            ParseError,
        >(labels),
    decreases labels.len(),
{
    let parts = labels.map_values(|label: Seq<u8>| label_chars(label));
    if labels.len() == 0 {
        assert(labels =~= Seq::empty());
    } else {
        let rest = labels.drop_first();
        assert forall|i: int| 0 <= i < rest.len() implies plain_bytes(#[trigger] rest[i]) && 1
            <= rest[i].len() <= 63 by {
            assert(rest[i] == labels[i + 1]);
        }
        plain_label_has_no_dot(labels[0]);
        plain_pieces_are_labels(rest, used + labels[0].len() + 1);
        assert(parts.drop_first() =~= rest.map_values(|label: Seq<u8>| label_chars(label)));
        assert(seq![labels[0]] + rest =~= labels);
    }
}

proof fn text_labels_are_plain(parts: Seq<Seq<char>>, used: int)
    requires
        0 < used <= 255,
    ensures
        text_labels(parts, used) matches Ok(labels) ==> {
            &&& forall|i: int|
                0 <= i < labels.len() ==> plain_bytes(#[trigger] labels[i]) && 1
                    <= labels[i].len() <= 63
            &&& used + encoded(labels).len() - 1 <= 255
        },
    decreases parts.len(),
{
    if parts.len() > 0 && plain_label(parts[0]) && used + parts[0].len() + 1 <= 255 {
        text_labels_are_plain(parts.drop_first(), used + parts[0].len() + 1);
        match text_labels(parts.drop_first(), used + parts[0].len() + 1) {
            Ok(labels) => {
                encoded_prepend(ascii(parts[0]), labels);
                assert(plain_bytes(ascii(parts[0]))) by {
                    assert forall|i: int| 0 <= i < parts[0].len() implies plain_char(
                        (#[trigger] ascii(parts[0])[i]) as char,
                    ) by {
                        assert(plain_char(parts[0][i]));
                    }
                }
            },
            Err(_) => {},
        }
    }
}

/// A configuration name survives being shown and read again.
pub proof fn configuration_name_reads_back(text: Seq<char>)
    ensures
        text_name(text) matches Ok(labels) ==> text_name(shown(labels)) == Ok::<
            Seq<Seq<u8>>,
            ParseError,
        >(labels),
{
    text_labels_are_plain(text::split(without_final_dot(text), '.'), 1);
    match text_name(text) {
        Ok(labels) => {
            if labels.len() == 0 {
                assert(labels =~= Seq::empty());
            } else {
                shown_labels_split_into_labels(labels);
                plain_pieces_are_labels(labels, 1);
                let form = shown(labels);
                assert(plain_bytes(labels[labels.len() - 1]));
                plain_label_is_shown_as_it_is(labels.last());
                assert(form.len() >= 2);
                assert(form.last() == '.');
                let chars = labels.map_values(|label: Seq<u8>| label_chars(label));
                assert(text::split(form, '.') =~= text::split(form.drop_last(), '.').push(
                    Seq::empty(),
                ));
                assert(text::split(form.drop_last(), '.') =~= chars) by {
                    assert(text::split(form, '.').drop_last() =~= chars);
                    assert(text::split(form, '.').drop_last() =~= text::split(
                        form.drop_last(),
                        '.',
                    ));
                }
            }
        },
        Err(_) => {},
    }
}

/// The labels of a name as sequences of octets.
pub open spec fn label_views(labels: Seq<Vec<u8>>) -> Seq<Seq<u8>> {
    labels.map_values(|label: Vec<u8>| label@)
}

/// Absolute DNS name, preserving label octets; equality is ASCII case-insensitive.
#[derive(Debug)]
pub struct DomainName {
    labels: Vec<Vec<u8>>,
}

impl View for DomainName {
    type V = Seq<Seq<u8>>;

    closed spec fn view(&self) -> Seq<Seq<u8>> {
        label_views(self.labels@)
    }
}

impl DomainName {
    #[verifier::type_invariant]
    spec fn well_formed(self) -> bool {
        name_ok(self@)
    }

    /// Counts labels excluding the terminating root, which itself has zero labels.
    pub fn label_count(&self) -> (r: usize)
        ensures
            r == self@.len(),
    {
        self.labels.len()
    }

    /// Decodes a name from the full DNS message starting at `cursor`.
    ///
    /// On success, `cursor` points just after this encoded name, including its
    /// first compression pointer when present, not after the pointer's target.
    /// On error it stays where it was.
    pub fn decode(wire: &[u8], cursor: &mut usize) -> (r: Result<DomainName, ParseError>)
        ensures
            match name_at(wire@, *old(cursor) as int) {
                Ok((labels, end)) => r is Ok && r->Ok_0@ == labels && *final(cursor) == end,
                Err(error) => r == Err::<DomainName, ParseError>(error) && *final(cursor) == *old(
                    cursor,
                ),
            },
    {
        let start: usize = *cursor;
        let mut labels: Vec<Vec<u8>> = Vec::new();
        let mut position: usize = start;
        let mut end: Option<usize> = None;
        let mut expanded: usize = 1;
        let mut visited: Vec<usize> = Vec::new();
        let ghost mut seen: Seq<int> = Seq::empty();
        assert(resume(
            label_views(labels@),
            None,
            labels_at(wire@, start as int, 1, seen),
        ) =~= name_at(wire@, start as int)) by {
            match name_at(wire@, start as int) {
                Ok((more, after)) => {
                    assert(label_views(labels@) + more =~= more);
                },
                Err(_) => {},
            }
        }
        loop
            invariant
                start == *old(cursor),
                *cursor == start,
                name_ok(label_views(labels@)),
                expanded == encoded(label_views(labels@)).len(),
                visited@.len() == seen.len() <= 128,
                forall|i: int| 0 <= i < seen.len() ==> visited@[i] == #[trigger] seen[i],
                name_at(wire@, start as int) == resume(
                    label_views(labels@),
                    match end {
                        Some(fixed) => Some(fixed as int),
                        None => None,
                    },
                    labels_at(wire@, position as int, expanded as int, seen),
                ),
            decreases 255 - expanded, 128 - visited@.len(),
        {
            if position >= wire.len() {
                return Err(ParseError::UnexpectedEnd);
            }
            let head: u8 = wire[position];
            if head >= 192 {
                if wire.len() - position < 2 {
                    return Err(ParseError::UnexpectedEnd);
                }
                let tail: u8 = wire[position + 1];
                let target: usize = (head - 192) as usize * 256 + tail as usize;
                let known = holds(&visited, target);
                assert(known == seen.contains(target as int)) by {
                    if known {
                        let i = choose|i: int| 0 <= i < visited@.len() && visited@[i] == target;
                        assert(seen[i] == target);
                    }
                    if seen.contains(target as int) {
                        let i = choose|i: int| 0 <= i < seen.len() && seen[i] == target;
                        assert(visited@[i] == target);
                    }
                }
                if known {
                    return Err(ParseError::CompressionLoop);
                }
                // Compression points to a prior occurrence, never the header.
                if target < 12 || target >= position {
                    return Err(ParseError::InvalidPointer);
                }
                if visited.len() >= MAX_POINTERS {
                    return Err(ParseError::CompressionDepth);
                }
                visited.push(target);
                if end.is_none() {
                    // The first pointer terminates the name at the original
                    // location. Further decoding must not advance that cursor.
                    end = Some(position + 2);
                }
                proof {
                    seen = seen.push(target as int);
                }
                position = target;
            } else if head >= 64 {
                return Err(ParseError::InvalidLabel);
            } else if head == 0 {
                let after: usize = position + 1;
                *cursor = match end {
                    Some(fixed) => fixed,
                    None => after,
                };
                assert(label_views(labels@) + Seq::<Seq<u8>>::empty() =~= label_views(labels@));
                return Ok(DomainName { labels });
            } else {
                let length: usize = head as usize;
                // Count expanded labels plus the root terminator, even when
                // compression makes the physical representation much shorter.
                if expanded + length + 1 > MAX_NAME_LENGTH {
                    return Err(ParseError::NameTooLong);
                }
                if wire.len() - position < length + 1 {
                    return Err(ParseError::UnexpectedEnd);
                }
                let ghost before = label_views(labels@);
                let label: Vec<u8> = slice_to_vec(
                    slice_subrange(wire, position + 1, position + 1 + length),
                );
                let ghost octets = label@;
                labels.push(label);
                proof {
                    assert(label_views(labels@) =~= before.push(octets));
                    encoded_push(before, octets);
                    let rest = labels_at(
                        wire@,
                        position + 1 + length,
                        expanded + length + 1,
                        seen,
                    );
                    match rest {
                        Ok((more, _)) => {
                            assert(before + (seq![octets] + more) =~= before.push(octets) + more);
                        },
                        Err(_) => {},
                    }
                }
                expanded = expanded + length + 1;
                position = position + 1 + length;
            }
        }
    }
}

impl DomainName {
    /// Tests equality or descent by complete labels, ignoring ASCII case.
    ///
    /// Every name matches the root suffix; textual suffixes within a label do not
    /// match (`notexample.test` is not below `example.test`).
    pub fn is_subdomain_of(&self, suffix: &DomainName) -> (r: bool)
        ensures
            r == within(self@, suffix@),
    {
        let count: usize = self.labels.len();
        if count < suffix.labels.len() {
            return false;
        }
        let offset: usize = count - suffix.labels.len();
        let ghost tail = self@.skip(offset as int);
        let mut i: usize = 0;
        while i < suffix.labels.len()
            invariant
                i <= suffix.labels@.len(),
                count == self.labels@.len() == offset + suffix.labels@.len(),
                tail == self@.skip(offset as int),
                forall|k: int|
                    0 <= k < i ==> #[trigger] fold_label(tail[k]) == fold_label(suffix@[k]),
            decreases suffix.labels@.len() - i,
        {
            assert(tail[i as int] == self.labels@[offset + i]@);
            if !same_label(&self.labels[offset + i], &suffix.labels[i]) {
                assert(fold_name(tail)[i as int] != fold_name(suffix@)[i as int]);
                return false;
            }
            i += 1;
        }
        assert(fold_name(tail) =~= fold_name(suffix@)) by {
            assert forall|k: int| 0 <= k < tail.len() implies fold_name(tail)[k] == fold_name(
                suffix@,
            )[k] by {
                assert(fold_label(tail[k]) == fold_label(suffix@[k]));
            }
        }
        true
    }

    /// Appends an uncompressed absolute name for locally generated replies.
    pub fn encode(&self, out: &mut Vec<u8>)
        ensures
            final(out)@ == old(out)@ + encoded(self@),
    {
        proof {
            use_type_invariant(self);
        }
        let ghost before = out@;
        let mut i: usize = 0;
        assert(self@.skip(0) =~= self@);
        while i < self.labels.len()
            invariant
                i <= self.labels@.len(),
                name_ok(self@),
                before + encoded(self@) == out@ + encoded(self@.skip(i as int)),
            decreases self.labels@.len() - i,
        {
            let ghost rest = self@.skip(i as int);
            let ghost label = self@[i as int];
            assert(rest[0] == label);
            assert(rest.drop_first() =~= self@.skip(i + 1));
            let ghost held = out@;
            out.push(self.labels[i].len() as u8);
            push_slice(out, self.labels[i].as_slice());
            assert(held + (seq![label.len() as u8] + label + encoded(self@.skip(i + 1))) =~= out@
                + encoded(self@.skip(i + 1)));
            i += 1;
        }
        out.push(0);
        assert(out@ =~= before + encoded(self@));
    }
}

impl DomainName {
    /// Parses an ASCII configuration name with an optional final dot, or `.`.
    ///
    /// Wildcards, empty labels and presentation escapes are not accepted; this
    /// is intentionally narrower than the binary names supported by decoding.
    pub fn from_text(text: &str) -> (r: Result<DomainName, ParseError>)
        ensures
            match text_name(text@) {
                Ok(labels) => r is Ok && r->Ok_0@ == labels,
                Err(error) => r == Err::<DomainName, ParseError>(error),
            },
    {
        let mut chars: Vec<char> = chars_of(text);
        if chars.len() == 1 && chars[0] == '.' {
            assert(text@ =~= seq!['.']);
            let labels: Vec<Vec<u8>> = Vec::new();
            assert(label_views(labels@) =~= Seq::empty());
            return Ok(DomainName { labels });
        }
        if chars.len() > 0 && chars[chars.len() - 1] == '.' {
            chars.pop();
        }
        assert(chars@ =~= without_final_dot(text@));
        let parts: Vec<Vec<char>> = split_chars(chars.as_slice(), '.');
        let ghost whole = text::pieces(parts@);
        let mut labels: Vec<Vec<u8>> = Vec::new();
        let mut length: usize = 1;
        let mut i: usize = 0;
        proof {
            assert(whole.skip(0) =~= whole);
            match text_name(text@) {
                Ok(rest) => {
                    assert(label_views(labels@) + rest =~= rest);
                },
                Err(_) => {},
            }
        }
        while i < parts.len()
            invariant
                i <= parts@.len(),
                whole == text::pieces(parts@),
                name_ok(label_views(labels@)),
                length == encoded(label_views(labels@)).len() <= 255,
                text_name(text@) == (match text_labels(whole.skip(i as int), length as int) {
                    Ok(rest) => Ok::<Seq<Seq<u8>>, ParseError>(label_views(labels@) + rest),
                    Err(error) => Err(error),
                }),
            decreases parts@.len() - i,
        {
            let ghost rest = whole.skip(i as int);
            assert(rest[0] == parts@[i as int]@);
            assert(rest.drop_first() =~= whole.skip(i + 1));
            match plain_octets(parts[i].as_slice()) {
                None => {
                    return Err(ParseError::InvalidLabel);
                },
                Some(label) => {
                    if length + label.len() + 1 > MAX_NAME_LENGTH {
                        return Err(ParseError::NameTooLong);
                    }
                    let ghost before = label_views(labels@);
                    let ghost octets = label@;
                    length = length + label.len() + 1;
                    labels.push(label);
                    proof {
                        assert(label_views(labels@) =~= before.push(octets));
                        encoded_push(before, octets);
                        match text_labels(whole.skip(i + 1), length as int) {
                            Ok(more) => {
                                assert(before + (seq![octets] + more) =~= before.push(octets)
                                    + more);
                            },
                            Err(_) => {},
                        }
                    }
                },
            }
            i += 1;
        }
        assert(label_views(labels@) + Seq::<Seq<u8>>::empty() =~= label_views(labels@));
        Ok(DomainName { labels })
    }

    /// Writes an absolute presentation name, escaping non-label text as decimals.
    ///
    /// Binary wire names need not be accepted by the configuration parser.
    pub fn to_string(&self) -> (r: String)
        ensures
            r@ == shown(self@),
    {
        let mut out: String = String::new();
        if self.labels.len() == 0 {
            out.push('.');
            assert(out@ =~= seq!['.']);
            return out;
        }
        let mut i: usize = 0;
        assert(out@ =~= shown_labels(self@.take(0)));
        while i < self.labels.len()
            invariant
                i <= self.labels@.len(),
                out@ == shown_labels(self@.take(i as int)),
            decreases self.labels@.len() - i,
        {
            push_label(&mut out, &self.labels[i]);
            out.push('.');
            assert(self@.take(i + 1).drop_last() =~= self@.take(i as int));
            assert(out@ =~= shown_labels(self@.take(i + 1)));
            i += 1;
        }
        assert(self@.take(i as int) =~= self@);
        out
    }
}

impl std::str::FromStr for DomainName {
    type Err = ParseError;

    /// Parses an ASCII configuration name with an optional final dot, or `.`.
    ///
    /// Wildcards, empty labels and presentation escapes are not accepted; this is
    /// intentionally narrower than the binary names supported by decoding.
    fn from_str(text: &str) -> (r: Result<Self, Self::Err>)
        ensures
            match text_name(text@) {
                Ok(labels) => r is Ok && r->Ok_0@ == labels,
                Err(error) => r == Err::<DomainName, ParseError>(error),
            },
    {
        DomainName::from_text(text)
    }
}

/// Appends a label in presentation form.
fn push_label(out: &mut String, label: &Vec<u8>)
    ensures
        final(out)@ == old(out)@ + shown_label(label@),
{
    let ghost before = out@;
    let mut i: usize = 0;
    assert(out@ =~= before + shown_label(label@.take(0)));
    while i < label.len()
        invariant
            i <= label@.len(),
            out@ == before + shown_label(label@.take(i as int)),
        decreases label@.len() - i,
    {
        let b: u8 = label[i];
        let ghost held = out@;
        if is_plain(b as char) {
            out.push(b as char);
        } else {
            out.push('\\');
            out.push((48 + b / 100) as char);
            out.push((48 + b / 10 % 10) as char);
            out.push((48 + b % 10) as char);
        }
        assert(label@.take(i + 1).drop_last() =~= label@.take(i as int));
        assert(out@ =~= held + shown_byte(b));
        assert(out@ =~= before + shown_label(label@.take(i + 1)));
        i += 1;
    }
    assert(label@.take(i as int) =~= label@);
}

fn is_plain(c: char) -> (r: bool)
    ensures
        r == plain_char(c),
{
    ('a' <= c && c <= 'z') || ('A' <= c && c <= 'Z') || ('0' <= c && c <= '9') || c == '-' || c
        == '_'
}

/// The octets of a label in configuration syntax.
fn plain_octets(label: &[char]) -> (r: Option<Vec<u8>>)
    ensures
        match r {
            Some(octets) => plain_label(label@) && octets@ == ascii(label@),
            None => !plain_label(label@),
        },
{
    if label.len() == 0 || label.len() > MAX_LABEL_LENGTH {
        return None;
    }
    let mut octets: Vec<u8> = Vec::new();
    let mut i: usize = 0;
    while i < label.len()
        invariant
            i <= label@.len(),
            forall|k: int| 0 <= k < i ==> plain_char(#[trigger] label@[k]),
            octets@ == ascii(label@.take(i as int)),
        decreases label@.len() - i,
    {
        if !is_plain(label[i]) {
            return None;
        }
        octets.push(label[i] as u8);
        assert(octets@ =~= ascii(label@.take(i + 1)));
        i += 1;
    }
    assert(label@.take(i as int) =~= label@);
    Some(octets)
}

impl PartialEq for DomainName {
    fn eq(&self, other: &Self) -> (r: bool) {
        let r = self.labels.len() == other.labels.len() && self.is_subdomain_of(other);
        proof {
            assert(self@.skip(0) =~= self@);
            if same_name(self@, other@) {
                assert(fold_name(self@).len() == fold_name(other@).len());
            }
        }
        r
    }
}

impl vstd::std_specs::cmp::PartialEqSpecImpl for DomainName {
    open spec fn obeys_eq_spec() -> bool {
        true
    }

    open spec fn eq_spec(&self, other: &Self) -> bool {
        same_name(self@, other@)
    }
}

impl Eq for DomainName {

}

impl Clone for DomainName {
    fn clone(&self) -> (r: Self)
        ensures
            r@ == self@,
    {
        proof {
            use_type_invariant(self);
        }
        let mut labels: Vec<Vec<u8>> = Vec::new();
        let mut i: usize = 0;
        while i < self.labels.len()
            invariant
                i <= self.labels@.len(),
                label_views(labels@) == self@.take(i as int),
            decreases self.labels@.len() - i,
        {
            let ghost before = label_views(labels@);
            let label: Vec<u8> = slice_to_vec(self.labels[i].as_slice());
            labels.push(label);
            assert(label_views(labels@) =~= before.push(self@[i as int]));
            assert(label_views(labels@) =~= self@.take(i + 1));
            i += 1;
        }
        assert(label_views(labels@) =~= self@);
        DomainName { labels }
    }
}

/// Whether two labels differ in ASCII case at most.
fn same_label(a: &Vec<u8>, b: &Vec<u8>) -> (r: bool)
    ensures
        r == (fold_label(a@) == fold_label(b@)),
{
    if a.len() != b.len() {
        assert(fold_label(a@).len() != fold_label(b@).len());
        return false;
    }
    let mut i: usize = 0;
    while i < a.len()
        invariant
            i <= a@.len(),
            a@.len() == b@.len(),
            forall|k: int| 0 <= k < i ==> #[trigger] bytes::fold_byte(a@[k]) == bytes::fold_byte(b@[k]),
        decreases a@.len() - i,
    {
        if fold(a[i]) != fold(b[i]) {
            assert(fold_label(a@)[i as int] != fold_label(b@)[i as int]);
            return false;
        }
        i += 1;
    }
    assert(fold_label(a@) =~= fold_label(b@)) by {
        assert forall|k: int| 0 <= k < a@.len() implies fold_label(a@)[k] == fold_label(
            b@,
        )[k] by {
            assert(bytes::fold_byte(a@[k]) == bytes::fold_byte(b@[k]));
        }
    }
    true
}

/// Whether a list holds a value.
fn holds(list: &Vec<usize>, value: usize) -> (r: bool)
    ensures
        r == (exists|i: int| 0 <= i < list@.len() && list@[i] == value),
{
    let mut i: usize = 0;
    while i < list.len()
        invariant
            i <= list@.len(),
            forall|k: int| 0 <= k < i ==> list@[k] != value,
        decreases list@.len() - i,
    {
        if list[i] == value {
            return true;
        }
        i += 1;
    }
    false
}

/// Whether two labels agree byte by byte, up to the case of the letters A to Z.
pub open spec fn spelled_alike(a: Seq<u8>, b: Seq<u8>) -> bool {
    &&& a.len() == b.len()
    &&& forall|k: int|
        #![trigger a[k]]
        #![trigger b[k]]
        0 <= k < a.len() ==> {
            ||| a[k] == b[k]
            ||| 65 <= a[k] <= 90 && b[k] - a[k] == 32
            ||| 65 <= b[k] <= 90 && a[k] - b[k] == 32
        }
}

proof fn folded_labels_are_spelled_alike(a: Seq<u8>, b: Seq<u8>)
    ensures
        fold_label(a) == fold_label(b) <==> spelled_alike(a, b),
{
    if fold_label(a) == fold_label(b) {
        assert(fold_label(a).len() == fold_label(b).len());
        assert forall|k: int| 0 <= k < a.len() implies {
            ||| a[k] == b[k]
            ||| 65 <= a[k] <= 90 && b[k] - a[k] == 32
            ||| 65 <= b[k] <= 90 && a[k] - b[k] == 32
        } by {
            assert(fold_label(a)[k] == fold_label(b)[k]);
            bytes::only_the_case_of_letters_is_folded(a[k], b[k]);
        }
    }
    if spelled_alike(a, b) {
        assert forall|k: int| 0 <= k < a.len() implies fold_label(a)[k] == fold_label(b)[k] by {
            bytes::only_the_case_of_letters_is_folded(a[k], b[k]);
        }
        assert(fold_label(a) =~= fold_label(b));
    }
}

/// Two names are the same exactly where they have the same number of labels, and
/// each label of one is that of the other up to the case of its letters.
pub proof fn same_names_are_spelled_alike(a: Seq<Seq<u8>>, b: Seq<Seq<u8>>)
    ensures
        same_name(a, b) <==> a.len() == b.len() && forall|i: int|
            #![trigger a[i]]
            #![trigger b[i]]
            0 <= i < a.len() ==> spelled_alike(a[i], b[i]),
{
    if same_name(a, b) {
        assert(fold_name(a).len() == fold_name(b).len());
        assert forall|i: int|
            #![trigger a[i]]
            #![trigger b[i]]
            0 <= i < a.len() implies spelled_alike(a[i], b[i]) by {
            assert(fold_name(a)[i] == fold_name(b)[i]);
            folded_labels_are_spelled_alike(a[i], b[i]);
        }
    }
    if a.len() == b.len() && (forall|i: int|
        #![trigger a[i]]
        0 <= i < a.len() ==> spelled_alike(a[i], b[i])) {
        assert forall|i: int| 0 <= i < a.len() implies fold_name(a)[i] == fold_name(b)[i] by {
            folded_labels_are_spelled_alike(a[i], b[i]);
        }
        assert(fold_name(a) =~= fold_name(b));
    }
}

/// A name is at or below a suffix exactly where it ends with as many whole labels
/// as the suffix has, each spelled like that of the suffix.
pub proof fn names_below_a_suffix_end_with_it(name: Seq<Seq<u8>>, suffix: Seq<Seq<u8>>)
    ensures
        within(name, suffix) <==> name.len() >= suffix.len() && forall|i: int|
            #![trigger suffix[i]]
            0 <= i < suffix.len() ==> spelled_alike(
                name[name.len() - suffix.len() + i],
                suffix[i],
            ),
{
    if name.len() >= suffix.len() {
        let end = name.skip(name.len() - suffix.len());
        same_names_are_spelled_alike(end, suffix);
        assert forall|i: int| 0 <= i < suffix.len() implies end[i] == name[name.len()
            - suffix.len() + i] by {}
        if !within(name, suffix) {
            let i = choose|i: int| 0 <= i < suffix.len() && !spelled_alike(#[trigger] end[i], suffix[i]);
            assert(suffix[i] == suffix[i]);
        }
    }
}

/// A name with its small letters made capital.
pub open spec fn capitalised(labels: Seq<Seq<u8>>) -> Seq<Seq<u8>> {
    labels.map_values(
        |label: Seq<u8>|
            label.map_values(
                |b: u8|
                    if 97 <= b <= 122 {
                        (b - 32) as u8
                    } else {
                        b
                    },
            ),
    )
}

/// A name in capital letters is the same name.
pub proof fn capitals_do_not_matter(labels: Seq<Seq<u8>>)
    ensures
        same_name(labels, capitalised(labels)),
{
    same_names_are_spelled_alike(labels, capitalised(labels));
}

proof fn pointers_are_followed(
    wire: Seq<u8>,
    chain: Seq<int>,
    labels: Seq<Seq<u8>>,
    k: int,
    visited: Seq<int>,
)
    requires
        0 <= k < chain.len(),
        encoded(labels).len() <= 255,
        forall|i: int| 0 <= i < labels.len() ==> 1 <= (#[trigger] labels[i]).len() <= 63,
        12 <= chain.last(),
        chain.last() + encoded(labels).len() <= wire.len(),
        wire.subrange(chain.last(), chain.last() + encoded(labels).len()) == encoded(labels),
        forall|i: int|
            0 <= i < chain.len() - 1 ==> {
                &&& (#[trigger] chain[i]) + 1 < wire.len()
                &&& 49152 + chain[i + 1] == 256 * wire[chain[i]] + wire[chain[i] + 1]
                &&& chain[i + 1] < chain[i]
            },
        visited == chain.subrange(1, k + 1),
        forall|i: int, j: int| 0 <= i < j < chain.len() ==> chain[j] < chain[i],
    ensures
        labels_at(wire, chain[k], 1, visited) == (if chain.len() - 1 <= 128 || k == chain.len() - 1 {
            Ok::<(Seq<Seq<u8>>, int), ParseError>(
                (
                    labels,
                    if k == chain.len() - 1 {
                        chain[k] + encoded(labels).len()
                    } else {
                        chain[k] + 2
                    },
                ),
            )
        } else {
            Err(ParseError::CompressionDepth)
        }) || k > 128,
    decreases chain.len() - k,
{
    let at = chain[k];
    if k == chain.len() - 1 {
        encoded_labels_read_back(wire, at, labels, 1, visited);
    } else {
        let target = chain[k + 1];
        assert(target >= chain.last());
        assert(wire[at] >= 192);
        assert((wire[at] - 192) * 256 + wire[at + 1] == target);
        assert(!visited.contains(target)) by {
            if visited.contains(target) {
                let i = choose|i: int| 0 <= i < visited.len() && visited[i] == target;
                assert(visited[i] == chain[i + 1]);
            }
        }
        if k < 128 {
            assert(visited.push(target) =~= chain.subrange(1, k + 2));
            pointers_are_followed(wire, chain, labels, k + 1, visited.push(target));
        }
    }
}

/// A name that is reached through a chain of pointers, each to an earlier place, is
/// the name at the end of the chain, and ends behind the first pointer. Up to 128
/// pointers are followed.
pub proof fn pointer_chains_are_followed(wire: Seq<u8>, chain: Seq<int>, labels: Seq<Seq<u8>>)
    requires
        chain.len() >= 2,
        encoded(labels).len() <= 255,
        forall|i: int| 0 <= i < labels.len() ==> 1 <= (#[trigger] labels[i]).len() <= 63,
        12 <= chain.last(),
        chain.last() + encoded(labels).len() <= wire.len(),
        wire.subrange(chain.last(), chain.last() + encoded(labels).len()) == encoded(labels),
        forall|i: int|
            0 <= i < chain.len() - 1 ==> {
                &&& (#[trigger] chain[i]) + 1 < wire.len()
                &&& 49152 + chain[i + 1] == 256 * wire[chain[i]] + wire[chain[i] + 1]
            },
        forall|i: int, j: int| 0 <= i < j < chain.len() ==> chain[j] < chain[i],
    ensures
        name_at(wire, chain[0]) == (if chain.len() - 1 <= 128 {
            Ok::<(Seq<Seq<u8>>, int), ParseError>((labels, chain[0] + 2))
        } else {
            Err(ParseError::CompressionDepth)
        }),
{
    assert(Seq::<int>::empty() =~= chain.subrange(1, 1));
    pointers_are_followed(wire, chain, labels, 0, Seq::empty());
}

proof fn encoded_is_not_empty(labels: Seq<Seq<u8>>)
    ensures
        encoded(labels).len() >= 1,
    decreases labels.len(),
{
    if labels.len() > 0 {
        encoded_is_not_empty(labels.drop_first());
    }
}

/// A name may be some labels and then a pointer to an earlier name: it is those
/// labels and then the labels of that name, and ends behind the pointer.
pub proof fn compressed_name_reads_back(
    wire: Seq<u8>,
    at: int,
    front: Seq<Seq<u8>>,
    target: int,
    rest: Seq<Seq<u8>>,
)
    requires
        12 <= target < at + encoded(front).len() - 1,
        0 <= at,
        at + encoded(front).len() + 1 <= wire.len(),
        target + encoded(rest).len() <= wire.len(),
        encoded(front + rest).len() <= 255,
        forall|i: int|
            0 <= i < front.len() + rest.len() ==> 1 <= (#[trigger] (front + rest)[i]).len() <= 63,
        wire.subrange(at, at + encoded(front).len() - 1) == encoded(front).drop_last(),
        wire.subrange(target, target + encoded(rest).len()) == encoded(rest),
        49152 + target == 256 * wire[at + encoded(front).len() - 1] + wire[at + encoded(
            front,
        ).len()],
    ensures
        name_at(wire, at) == Ok::<(Seq<Seq<u8>>, int), ParseError>(
            (front + rest, at + encoded(front).len() + 1),
        ),
{
    let whole = front + rest;
    assert forall|i: int| 0 <= i < front.len() implies 1 <= (#[trigger] front[i]).len() <= 63 by {
        assert(whole[i] == front[i]);
    }
    assert forall|i: int| 0 <= i < rest.len() implies 1 <= (#[trigger] rest[i]).len() <= 63 by {
        assert(whole[front.len() + i] == rest[i]);
    }
    encoded_join(front, rest);
    encoded_is_not_empty(front);
    encoded_is_not_empty(rest);
    labels_then_a_pointer(wire, at, front, target, 1, Seq::empty());
    encoded_labels_read_back(
        wire,
        target,
        rest,
        encoded(front).len() as int,
        Seq::<int>::empty().push(target),
    );
}

proof fn encoded_join(front: Seq<Seq<u8>>, rest: Seq<Seq<u8>>)
    ensures
        encoded(front + rest).len() == encoded(front).len() - 1 + encoded(rest).len(),
    decreases front.len(),
{
    if front.len() == 0 {
        assert(front + rest =~= rest);
    } else {
        encoded_join(front.drop_first(), rest);
        assert((front + rest).drop_first() =~= front.drop_first() + rest);
    }
}

/// The encoding of a name is each label behind its length, then a zero: so it is
/// one byte longer than its labels and their lengths.
pub proof fn encoding_counts_labels(labels: Seq<Seq<u8>>, label: Seq<u8>)
    requires
        label.len() <= 63,
    ensures
        encoded(Seq::<Seq<u8>>::empty()) == seq![0u8],
        encoded(seq![label] + labels)[0] == label.len(),
        encoded(seq![label] + labels).subrange(1, 1 + label.len() as int) == label,
        encoded(seq![label] + labels).skip(1 + label.len() as int) == encoded(labels),
{
    let whole = seq![label] + labels;
    assert(whole.drop_first() =~= labels);
    assert(encoded(whole).subrange(1, 1 + label.len() as int) =~= label);
    assert(encoded(whole).skip(1 + label.len() as int) =~= encoded(labels));
}

/// A length byte says what follows: a label of up to 63 bytes, a pointer from 192
/// on, nothing known in between. A pointer leads to a place behind the header and
/// before itself, and a name never exceeds 255 bytes.
pub proof fn broken_names_are_refused(wire: Seq<u8>, at: int)
    requires
        0 <= at,
    ensures
        at >= wire.len() ==> name_at(wire, at) == Err::<(Seq<Seq<u8>>, int), ParseError>(
            ParseError::UnexpectedEnd,
        ),
        at < wire.len() && 64 <= wire[at] < 192 ==> name_at(wire, at) == Err::<
            (Seq<Seq<u8>>, int),
            ParseError,
        >(ParseError::InvalidLabel),
        at + 1 < wire.len() && wire[at] >= 192 && !(12 <= 256 * wire[at] + wire[at + 1] - 49152
            < at) ==> name_at(wire, at) == Err::<(Seq<Seq<u8>>, int), ParseError>(
            ParseError::InvalidPointer,
        ),
        name_at(wire, at) matches Ok((labels, end)) ==> at < end <= wire.len() && encoded(
            labels,
        ).len() <= 255 && forall|i: int|
            0 <= i < labels.len() ==> 1 <= (#[trigger] labels[i]).len() <= 63,
{
    decoded_name_fits(wire, at);
}

/// Whether a byte is a letter, a digit, a hyphen or an underscore.
pub open spec fn name_byte(b: u8) -> bool {
    97 <= b <= 122 || 65 <= b <= 90 || 48 <= b <= 57 || b == 45 || b == 95
}

/// Whether labels can be those of a name in a configuration: letters, digits, hyphens
/// and underscores, 1 to 63 of them in each, and at most 255 bytes on the wire.
pub open spec fn can_be_written(labels: Seq<Seq<u8>>) -> bool {
    &&& labels.len() >= 1
    &&& encoded(labels).len() <= 255
    &&& forall|i: int|
        0 <= i < labels.len() ==> 1 <= (#[trigger] labels[i]).len() <= 63 && forall|k: int|
            0 <= k < labels[i].len() ==> name_byte(#[trigger] labels[i][k])
}

/// Labels as text, with dots between them.
pub open spec fn written(labels: Seq<Seq<u8>>) -> Seq<char> {
    text::joined(
        labels.map_values(|label: Seq<u8>| label.map_values(|b: u8| b as char)),
        '.',
    )
}

proof fn name_bytes_are_plain(label: Seq<u8>)
    ensures
        plain_bytes(label) <==> forall|k: int| 0 <= k < label.len() ==> name_byte(#[trigger] label[k]),
        label_chars(label) =~= label.map_values(|b: u8| b as char),
{
    assert forall|b: u8| plain_char(b as char) == #[trigger] name_byte(b) by {}
    if plain_bytes(label) {
        assert forall|k: int| 0 <= k < label.len() implies name_byte(#[trigger] label[k]) by {
            assert(plain_char(label[k] as char));
        }
    }
    if forall|k: int| 0 <= k < label.len() ==> name_byte(#[trigger] label[k]) {
        assert forall|k: int| 0 <= k < label.len() implies plain_char(
            (#[trigger] label[k]) as char,
        ) by {
            assert(name_byte(label[k]));
        }
    }
}

/// A configuration name that can be written is read from its labels with dots between
/// them, with or without one more dot at the end.
pub proof fn written_names_are_read(labels: Seq<Seq<u8>>)
    requires
        can_be_written(labels),
    ensures
        text_name(written(labels)) == Ok::<Seq<Seq<u8>>, ParseError>(labels),
        text_name(written(labels).push('.')) == Ok::<Seq<Seq<u8>>, ParseError>(labels),
        text_name(seq!['.']) == Ok::<Seq<Seq<u8>>, ParseError>(Seq::empty()),
{
    let chars = labels.map_values(|label: Seq<u8>| label_chars(label));
    let parts = labels.map_values(|label: Seq<u8>| label.map_values(|b: u8| b as char));
    assert forall|i: int| 0 <= i < labels.len() implies plain_bytes(#[trigger] labels[i]) && 1
        <= labels[i].len() <= 63 && !chars[i].contains('.') && chars[i] == parts[i] by {
        name_bytes_are_plain(labels[i]);
        plain_label_has_no_dot(labels[i]);
    }
    assert(chars =~= parts);
    assert forall|i: int| 0 <= i < chars.len() implies !(#[trigger] chars[i]).contains('.') by {
        assert(plain_bytes(labels[i]));
    }
    text::joined_pieces_come_apart(chars, '.');
    plain_pieces_are_labels(labels, 1);
    let form = written(labels);
    joined_ends_with_its_last(chars);
    assert(plain_bytes(labels[labels.len() - 1]));
    assert(!chars[chars.len() - 1].contains('.'));
    assert(chars.last().len() >= 1);
    assert(form.last() == chars.last().last());
    assert(form.last() != '.') by {
        assert(chars.last().contains(chars.last()[chars.last().len() - 1]));
    }
    assert(without_final_dot(form) == form);
    assert(form.push('.').drop_last() =~= form);
    assert(form.push('.').len() >= 2);
}

proof fn joined_ends_with_its_last(parts: Seq<Seq<char>>)
    requires
        parts.len() >= 1,
        parts.last().len() >= 1,
    ensures
        text::joined(parts, '.').len() >= 1,
        text::joined(parts, '.').last() == parts.last().last(),
{
}

/// Only names that can be written are read from a configuration, and each from its own
/// text.
pub proof fn only_written_names_are_read(text: Seq<char>)
    ensures
        text_name(text) matches Ok(labels) ==> {
            ||| labels.len() == 0 && text == seq!['.']
            ||| can_be_written(labels) && (text == written(labels) || text == written(labels).push(
                '.',
            ))
        },
{
    match text_name(text) {
        Ok(labels) => {
            if text != seq!['.'] {
                let body = without_final_dot(text);
                let parts = text::split(body, '.');
                text::pieces_join_to_the_text(body, '.');
                text_labels_are_plain(parts, 1);
                parts_are_labels(parts, 1);
                assert forall|i: int| 0 <= i < labels.len() implies forall|k: int|
                    0 <= k < (#[trigger] labels[i]).len() ==> name_byte(#[trigger] labels[i][k]) by {
                    assert(plain_bytes(labels[i]));
                    name_bytes_are_plain(labels[i]);
                }
                assert(can_be_written(labels));
                assert(parts =~= labels.map_values(
                    |label: Seq<u8>| label.map_values(|b: u8| b as char),
                ));
                if body != text {
                    assert(body.push('.') =~= text);
                }
            }
        },
        Err(_) => {},
    }
}

proof fn parts_are_labels(parts: Seq<Seq<char>>, used: int)
    ensures
        text_labels(parts, used) matches Ok(labels) ==> {
            &&& labels.len() == parts.len()
            &&& forall|i: int|
                0 <= i < parts.len() ==> (#[trigger] parts[i]) == labels[i].map_values(
                    |b: u8| b as char,
                )
        },
    decreases parts.len(),
{
    match text_labels(parts, used) {
        Ok(labels) => {
            if parts.len() > 0 {
                let next = used + parts[0].len() + 1;
                parts_are_labels(parts.drop_first(), next);
                let rest = text_labels(parts.drop_first(), next)->Ok_0;
                assert forall|i: int| 0 <= i < parts.len() implies (#[trigger] parts[i])
                    == labels[i].map_values(|b: u8| b as char) by {
                    if i == 0 {
                        assert(labels[0] == ascii(parts[0]));
                        assert forall|k: int| 0 <= k < parts[0].len() implies parts[0][k] == (
                        parts[0][k] as u8) as char by {
                            assert(plain_char(parts[0][k]));
                        }
                        assert(parts[0] =~= labels[0].map_values(|b: u8| b as char));
                    } else {
                        assert(parts[i] == parts.drop_first()[i - 1]);
                        assert(labels[i] == rest[i - 1]);
                    }
                }
            }
        },
        Err(_) => {},
    }
}

/// Every name of up to 255 bytes, in labels of 1 to 63, reads back where it was written
/// uncompressed.
pub proof fn every_name_up_to_its_limit_reads_back(
    before: Seq<u8>,
    labels: Seq<Seq<u8>>,
    after: Seq<u8>,
)
    requires
        encoded(labels).len() <= 255,
        forall|i: int| 0 <= i < labels.len() ==> 1 <= (#[trigger] labels[i]).len() <= 63,
    ensures
        name_at(before + encoded(labels) + after, before.len() as int) == Ok::<
            (Seq<Seq<u8>>, int),
            ParseError,
        >((labels, (before.len() + encoded(labels).len()) as int)),
{
    encoded_name_reads_back(before, labels, after);
}

/// A name that can be written is shown as it is written, with a dot at the end, and any
/// other byte of a label as a backslash and three decimal digits.
pub proof fn names_are_shown_as_written(labels: Seq<Seq<u8>>, b: u8)
    ensures
        can_be_written(labels) ==> shown(labels) == written(labels).push('.'),
        shown(Seq::empty()) == seq!['.'],
        name_byte(b) ==> shown_byte(b) == seq![b as char],
        !name_byte(b) ==> shown_byte(b).len() == 4 && shown_byte(b)[0] == '\\' && b == 100 * (
        shown_byte(b)[1] as int - 48) + 10 * (shown_byte(b)[2] as int - 48) + (shown_byte(b)[3]
            as int - 48),
{
    assert(plain_char(b as char) == name_byte(b));
    if can_be_written(labels) {
        labels_are_shown_as_written(labels);
    }
}

proof fn labels_are_shown_as_written(labels: Seq<Seq<u8>>)
    requires
        labels.len() >= 1,
        forall|i: int|
            0 <= i < labels.len() ==> forall|k: int|
                0 <= k < (#[trigger] labels[i]).len() ==> name_byte(#[trigger] labels[i][k]),
    ensures
        shown_labels(labels) == written(labels).push('.'),
    decreases labels.len(),
{
    let parts = labels.map_values(|label: Seq<u8>| label.map_values(|b: u8| b as char));
    let label = labels.last();
    assert(labels[labels.len() - 1] == label);
    name_bytes_are_plain(label);
    plain_label_is_shown_as_it_is(label);
    let less = labels.drop_last();
    if labels.len() == 1 {
        assert(shown_labels(less) =~= Seq::empty());
        assert(shown_labels(labels) =~= written(labels).push('.'));
    } else {
        assert forall|i: int| 0 <= i < less.len() implies forall|k: int|
            0 <= k < (#[trigger] less[i]).len() ==> name_byte(#[trigger] less[i][k]) by {
            assert(less[i] == labels[i]);
        }
        labels_are_shown_as_written(less);
        assert(parts.drop_last() =~= less.map_values(
            |label: Seq<u8>| label.map_values(|b: u8| b as char),
        ));
        assert(shown_labels(labels) =~= written(labels).push('.'));
    }
}

proof fn labels_then_a_pointer(
    wire: Seq<u8>,
    at: int,
    front: Seq<Seq<u8>>,
    target: int,
    expanded: int,
    visited: Seq<int>,
)
    requires
        0 <= at,
        0 < expanded,
        12 <= target < at + encoded(front).len() - 1,
        at + encoded(front).len() + 1 <= wire.len(),
        forall|i: int| 0 <= i < front.len() ==> 1 <= (#[trigger] front[i]).len() <= 63,
        expanded + encoded(front).len() - 1 <= 255,
        wire.subrange(at, at + encoded(front).len() - 1) == encoded(front).drop_last(),
        49152 + target == 256 * wire[at + encoded(front).len() - 1] + wire[at + encoded(
            front,
        ).len()],
        !visited.contains(target),
        visited.len() < 128,
    ensures
        labels_at(wire, at, expanded, visited) == (match labels_at(
            wire,
            target,
            expanded + encoded(front).len() - 1,
            visited.push(target),
        ) {
            Ok((more, _)) => Ok::<(Seq<Seq<u8>>, int), ParseError>(
                (front + more, at + encoded(front).len() + 1),
            ),
            Err(error) => Err(error),
        }),
    decreases front.len(),
{
    let form = encoded(front);
    if front.len() == 0 {
        assert(wire[at] >= 192);
        assert((wire[at] - 192) * 256 + wire[at + 1] == target);
        match labels_at(wire, target, expanded, visited.push(target)) {
            Ok((more, _)) => {
                assert(front + more =~= more);
            },
            Err(_) => {},
        }
    } else {
        let first = front[0];
        let less = front.drop_first();
        let window = wire.subrange(at, at + form.len() - 1);
        let next = at + 1 + first.len();
        let deep = encoded(less);
        encoded_is_not_empty(less);
        assert(form.len() == 1 + first.len() + deep.len());
        assert(window[0] == form[0]);
        assert(form[0] == first.len() as u8);
        assert(wire.subrange(at + 1, next) =~= first) by {
            assert forall|k: int| 0 <= k < first.len() implies wire[at + 1 + k] == first[k] by {
                assert(window[k + 1] == form[k + 1]);
            }
        }
        assert(wire.subrange(next, next + deep.len() - 1) =~= deep.drop_last()) by {
            assert forall|k: int| 0 <= k < deep.len() - 1 implies wire[next + k] == deep[k] by {
                assert(window[k + 1 + first.len()] == form[k + 1 + first.len()]);
            }
        }
        assert forall|i: int| 0 <= i < less.len() implies 1 <= (#[trigger] less[i]).len()
            <= 63 by {
            assert(less[i] == front[i + 1]);
        }
        labels_then_a_pointer(wire, next, less, target, expanded + first.len() + 1, visited);
        match labels_at(
            wire,
            target,
            expanded + form.len() - 1,
            visited.push(target),
        ) {
            Ok((more, _)) => {
                assert(seq![first] + (less + more) =~= front + more);
            },
            Err(_) => {},
        }
    }
}

/// The labels of a name in several parts, from a part on.
pub open spec fn parts_from(parts: Seq<Seq<Seq<u8>>>, from: int) -> Seq<Seq<u8>>
    decreases parts.len() - from,
{
    if from >= parts.len() {
        Seq::empty()
    } else {
        parts[from] + parts_from(parts, from + 1)
    }
}

/// Whether the parts of a name lie at places of a message: each as its labels, behind
/// which a pointer leads to the next part, further in front; the last as a whole name.
pub open spec fn parts_lie(wire: Seq<u8>, parts: Seq<Seq<Seq<u8>>>, places: Seq<int>) -> bool {
    let n = parts.len() - 1;
    &&& n >= 0
    &&& places.len() == parts.len()
    &&& forall|i: int, j: int| 0 <= i < j <= n ==> places[j] < places[i]
    &&& forall|i: int|
        0 <= i <= n ==> 12 <= #[trigger] places[i] && forall|k: int|
            0 <= k < parts[i].len() ==> 1 <= (#[trigger] parts[i][k]).len() <= 63
    &&& forall|i: int|
        0 <= i < n ==> {
            let length = encoded(parts[i]).len();
            &&& #[trigger] places[i] + length + 1 <= wire.len()
            &&& wire.subrange(places[i], places[i] + length - 1) == encoded(parts[i]).drop_last()
            &&& 49152 + places[i + 1] == 256 * wire[places[i] + length - 1] + wire[places[i]
                + length]
        }
    &&& places[n] + encoded(parts[n]).len() <= wire.len()
    &&& wire.subrange(places[n], places[n] + encoded(parts[n]).len()) == encoded(parts[n])
}

proof fn parts_are_read(
    wire: Seq<u8>,
    parts: Seq<Seq<Seq<u8>>>,
    places: Seq<int>,
    k: int,
    expanded: int,
)
    requires
        parts_lie(wire, parts, places),
        0 <= k < parts.len() <= 129,
        0 < expanded,
        expanded + encoded(parts_from(parts, k)).len() - 1 <= 255,
    ensures
        labels_at(wire, places[k], expanded, places.subrange(1, k + 1)) == Ok::<
            (Seq<Seq<u8>>, int),
            ParseError,
        >(
            (
                parts_from(parts, k),
                places[k] + encoded(parts[k]).len() + (if k < parts.len() - 1 {
                    1int
                } else {
                    0int
                }),
            ),
        ),
    decreases parts.len() - k,
{
    let visited = places.subrange(1, k + 1);
    let part = parts[k];
    let at = places[k];
    assert(12 <= places[k]);
    if k == parts.len() - 1 {
        assert(parts_from(parts, k + 1) =~= Seq::empty());
        assert(parts_from(parts, k) =~= part);
        encoded_labels_read_back(wire, at, part, expanded, visited);
    } else {
        let target = places[k + 1];
        let rest = parts_from(parts, k + 1);
        encoded_join(part, rest);
        encoded_is_not_empty(rest);
        encoded_is_not_empty(part);
        assert(12 <= places[k + 1]);
        assert(!visited.contains(target)) by {
            if visited.contains(target) {
                let i = choose|i: int| 0 <= i < visited.len() && visited[i] == target;
                assert(visited[i] == places[i + 1]);
            }
        }
        labels_then_a_pointer(wire, at, part, target, expanded, visited);
        assert(visited.push(target) =~= places.subrange(1, k + 2));
        parts_are_read(wire, parts, places, k + 1, expanded + encoded(part).len() - 1);
    }
}

/// A name may be compressed in any number of parts up to 129: some labels and a pointer to
/// more of it further in front, and so on. It is read as all of its labels in order, and
/// ends behind its own first pointer.
pub proof fn nested_compression_reads_back(
    wire: Seq<u8>,
    parts: Seq<Seq<Seq<u8>>>,
    places: Seq<int>,
)
    requires
        parts_lie(wire, parts, places),
        2 <= parts.len() <= 129,
        encoded(parts_from(parts, 0)).len() <= 255,
    ensures
        name_at(wire, places[0]) == Ok::<(Seq<Seq<u8>>, int), ParseError>(
            (parts_from(parts, 0), places[0] + encoded(parts[0]).len() + 1),
        ),
{
    assert(places.subrange(1, 1) =~= Seq::empty());
    parts_are_read(wire, parts, places, 0, 1);
}

} // verus!
