//! Splitting, comparing and formatting text.

use vstd::arithmetic::power;
use vstd::prelude::*;

verus! {

/// The text that byte strings are shown as: UTF-8, with replacement characters for what is not.
pub uninterp spec fn lossy_text(bytes: Seq<u8>) -> Seq<char>;

/// Shows a byte string as text, through `String::from_utf8_lossy`. The text is a function of
/// the bytes alone, and where the bytes are UTF-8 it is what they encode.
#[verifier::external_body]
pub(crate) fn to_lossy_text(bytes: &[u8]) -> (text: String)
    ensures
        text@ == lossy_text(bytes@),
        vstd::utf8::valid_utf8(bytes@) ==> text@ == vstd::utf8::decode_utf8(bytes@),
{
    String::from_utf8_lossy(bytes).into_owned()
}

/// Tells whether two byte strings hold the same bytes.
pub fn bytes_equal(left: &[u8], right: &[u8]) -> (equal: bool)
    ensures
        equal == (left@ == right@),
{
    if left.len() != right.len() {
        return false;
    }
    let mut i: usize = 0;
    while i < left.len()
        invariant
            left@.len() == right@.len(),
            i <= left@.len(),
            forall|k: int| 0 <= k < i ==> left@[k] == right@[k],
        decreases left@.len() - i,
    {
        if left[i] != right[i] {
            return false;
        }
        i = i + 1;
    }
    assert(left@ =~= right@);
    true
}

/// `String::push` appends the character.
pub assume_specification[ std::string::String::push ](string: &mut String, ch: char)
    ensures
        final(string)@ == old(string)@.push(ch),
;

/// The bytes that stand for the characters of an ASCII text.
pub open spec fn ascii_bytes(text: Seq<char>) -> Seq<u8> {
    text.map_values(|character: char| character as u8)
}

/// The characters that the bytes of an ASCII text stand for.
pub open spec fn ascii_text(bytes: Seq<u8>) -> Seq<char> {
    bytes.map_values(|byte: u8| byte as char)
}

/// The bytes that stand for the characters of an ASCII text.
pub fn to_ascii_bytes(text: &str) -> (bytes: Vec<u8>)
    ensures
        bytes@ == ascii_bytes(text@),
{
    let mut bytes: Vec<u8> = Vec::new();
    for character in characters: text.chars()
        invariant
            characters.seq() == text@,
            bytes@ =~= ascii_bytes(text@.take(characters.index())),
    {
        bytes.push(character as u8);
    }
    assert(text@.take(text@.len() as int) =~= text@);
    bytes
}

/// Appends the characters that the bytes of an ASCII text stand for.
pub fn push_ascii(text: &mut String, bytes: &[u8])
    ensures
        final(text)@ == old(text)@ + ascii_text(bytes@),
{
    let mut i: usize = 0;
    while i < bytes.len()
        invariant
            i <= bytes@.len(),
            text@ =~= old(text)@ + ascii_text(bytes@.take(i as int)),
        decreases bytes@.len() - i,
    {
        text.push(bytes[i] as char);
        i = i + 1;
    }
    assert(bytes@.take(bytes@.len() as int) =~= bytes@);
}

/// The ASCII digit for a number below ten.
pub open spec fn digit(value: int) -> u8 {
    (0x30 + value) as u8
}

/// The number in decimal.
pub open spec fn decimal(number: nat) -> Seq<u8>
    decreases number,
{
    if number < 10 {
        seq![digit(number as int)]
    } else {
        decimal(number / 10).push(digit((number % 10) as int))
    }
}

/// The number in decimal, with a sign where it is negative.
pub open spec fn signed_decimal(number: int) -> Seq<u8> {
    if number < 0 {
        seq![0x2du8] + decimal((-number) as nat)
    } else {
        decimal(number as nat)
    }
}

/// The last `width` decimal digits of the number.
pub open spec fn padded_decimal(number: nat, width: nat) -> Seq<u8>
    decreases width,
{
    if width == 0 {
        Seq::empty()
    } else {
        padded_decimal(number / 10, (width - 1) as nat).push(digit((number % 10) as int))
    }
}

/// A number in decimal consists of digits, and there is at least one.
pub proof fn lemma_decimal_digits(number: nat)
    ensures
        decimal(number).len() > 0,
        forall|i: int|
            0 <= i < decimal(number).len() ==> 0x30 <= #[trigger] decimal(number)[i] <= 0x39,
    decreases number,
{
    if number >= 10 {
        lemma_decimal_digits(number / 10);
    }
}

/// Different numbers have different decimals.
pub proof fn lemma_decimal_is_injective(left: nat, right: nat)
    requires
        decimal(left) == decimal(right),
    ensures
        left == right,
    decreases left,
{
    lemma_decimal_digits(left / 10);
    lemma_decimal_digits(right / 10);
    assert(decimal(left).last() == digit((left % 10) as int));
    assert(decimal(right).last() == digit((right % 10) as int));
    if left >= 10 && right >= 10 {
        assert(decimal(left).drop_last() =~= decimal(left / 10));
        assert(decimal(right).drop_last() =~= decimal(right / 10));
        lemma_decimal_is_injective(left / 10, right / 10);
    }
}

/// Appends a number in decimal.
pub fn push_decimal(bytes: &mut Vec<u8>, number: u64)
    ensures
        final(bytes)@ == old(bytes)@ + decimal(number as nat),
    decreases number,
{
    if number >= 10 {
        push_decimal(bytes, number / 10);
    }
    bytes.push(0x30 + (number % 10) as u8);
}

/// Appends a number in decimal, with a sign where it is negative.
pub fn push_signed_decimal(bytes: &mut Vec<u8>, number: i64)
    ensures
        final(bytes)@ == old(bytes)@ + signed_decimal(number as int),
{
    if number < 0 {
        bytes.push(0x2d);
        let distance: u64 = if number == i64::MIN {
            0x8000_0000_0000_0000
        } else {
            (-number) as u64
        };
        push_decimal(bytes, distance);
    } else {
        push_decimal(bytes, number as u64);
    }
}

/// The last decimal digits of a number are digits, and as many as are asked for.
pub proof fn lemma_padded_digits(number: nat, width: nat)
    ensures
        padded_decimal(number, width).len() == width,
        forall|i: int|
            0 <= i < width ==> 0x30 <= #[trigger] padded_decimal(number, width)[i] <= 0x39,
    decreases width,
{
    if width > 0 {
        lemma_padded_digits(number / 10, (width - 1) as nat);
    }
}

/// Appends the last `width` decimal digits of a number.
pub fn push_padded_decimal(bytes: &mut Vec<u8>, number: u32, width: u32)
    ensures
        final(bytes)@ == old(bytes)@ + padded_decimal(number as nat, width as nat),
    decreases width,
{
    if width > 0 {
        push_padded_decimal(bytes, number / 10, width - 1);
        bytes.push(0x30 + (number % 10) as u8);
    }
}

/// The pieces of a sequence between the items that separate: one more than there are separators.
pub open spec fn split<T>(items: Seq<T>, separates: spec_fn(T) -> bool) -> Seq<Seq<T>>
    decreases items.len(),
{
    if items.len() == 0 {
        seq![Seq::empty()]
    } else {
        let before = split(items.drop_last(), separates);
        if separates(items.last()) {
            before.push(Seq::empty())
        } else {
            before.drop_last().push(before.last().push(items.last()))
        }
    }
}

/// There is always a piece.
pub proof fn lemma_split_is_not_empty<T>(items: Seq<T>, separates: spec_fn(T) -> bool)
    ensures
        split(items, separates).len() > 0,
    decreases items.len(),
{
    if items.len() > 0 {
        lemma_split_is_not_empty(items.drop_last(), separates);
    }
}

/// No piece holds a separator.
pub proof fn lemma_pieces_hold_no_separator<T>(items: Seq<T>, separates: spec_fn(T) -> bool)
    ensures
        forall|k: int, i: int|
            0 <= k < split(items, separates).len() && 0 <= i < split(items, separates)[k].len()
                ==> !separates(#[trigger] split(items, separates)[k][i]),
    decreases items.len(),
{
    if items.len() > 0 {
        lemma_pieces_hold_no_separator(items.drop_last(), separates);
        lemma_split_is_not_empty(items.drop_last(), separates);
        let before = split(items.drop_last(), separates);
        let all = split(items, separates);
        assert forall|k: int, i: int|
            0 <= k < all.len() && 0 <= i < all[k].len() implies !separates(
            #[trigger] all[k][i],
        ) by {
            if k < before.len() - 1 {
                assert(all[k] == before[k]);
                assert(!separates(before[k][i]));
            } else if k < before.len() && i < before[k].len() {
                assert(all[k][i] == before[k][i]);
                assert(!separates(before[k][i]));
            }
        }
    }
}

/// What holds no separator is a single piece.
pub proof fn lemma_split_of_one_piece<T>(items: Seq<T>, separates: spec_fn(T) -> bool)
    requires
        forall|i: int| 0 <= i < items.len() ==> !separates(#[trigger] items[i]),
    ensures
        split(items, separates) == seq![items],
    decreases items.len(),
{
    if items.len() > 0 {
        lemma_split_of_one_piece(items.drop_last(), separates);
        assert(!separates(items.last()));
        assert(items.drop_last().push(items.last()) =~= items);
        assert(split(items, separates) =~= seq![items]);
    } else {
        assert(items =~= Seq::empty());
    }
}

/// The pieces on both sides of a separator are the pieces of the whole.
pub proof fn lemma_split_at_separator<T>(
    left: Seq<T>,
    separator: T,
    right: Seq<T>,
    separates: spec_fn(T) -> bool,
)
    requires
        separates(separator),
    ensures
        split(left.push(separator) + right, separates) == split(left, separates) + split(
            right,
            separates,
        ),
    decreases right.len(),
{
    let whole = left.push(separator) + right;
    if right.len() == 0 {
        assert(whole =~= left.push(separator));
        assert(whole.drop_last() =~= left);
        assert(split(whole, separates) =~= split(left, separates) + split(right, separates));
    } else {
        lemma_split_at_separator(left, separator, right.drop_last(), separates);
        lemma_split_is_not_empty(right.drop_last(), separates);
        assert(whole.drop_last() =~= left.push(separator) + right.drop_last());
        assert(whole.last() == right.last());
        assert(split(whole, separates) =~= split(left, separates) + split(right, separates));
    }
}

/// The pieces that hold something, in order.
pub open spec fn without_empty<T>(pieces: Seq<Seq<T>>) -> Seq<Seq<T>>
    decreases pieces.len(),
{
    if pieces.len() == 0 {
        pieces
    } else if pieces.last().len() == 0 {
        without_empty(pieces.drop_last())
    } else {
        without_empty(pieces.drop_last()).push(pieces.last())
    }
}

/// The non-empty pieces of a sequence between the items that separate.
pub open spec fn fields<T>(items: Seq<T>, separates: spec_fn(T) -> bool) -> Seq<Seq<T>> {
    without_empty(split(items, separates))
}

/// The contents of the vectors.
pub open spec fn contents_of<T>(pieces: Seq<Vec<T>>) -> Seq<Seq<T>> {
    pieces.map_values(|piece: Vec<T>| piece@)
}

/// The pieces of a slice between the items that separate.
pub(crate) fn split_items<T: Copy>(
    items: &[T],
    separates: impl Fn(T) -> bool,
    Ghost(separator): Ghost<spec_fn(T) -> bool>,
) -> (pieces: Vec<Vec<T>>)
    requires
        forall|item: T| call_requires(separates, (item,)),
        forall|item: T, answer: bool| call_ensures(separates, (item,), answer) ==> answer
            == separator(item),
    ensures
        contents_of(pieces@) == split(items@, separator),
{
    let mut pieces: Vec<Vec<T>> = Vec::new();
    let mut piece: Vec<T> = Vec::new();
    let mut i: usize = 0;
    assert(contents_of(pieces@).push(piece@) =~= split(items@.take(0), separator));
    while i < items.len()
        invariant
            i <= items@.len(),
            forall|item: T| call_requires(separates, (item,)),
            forall|item: T, answer: bool| call_ensures(separates, (item,), answer) ==> answer
                == separator(item),
            contents_of(pieces@).push(piece@) == split(items@.take(i as int), separator),
        decreases items@.len() - i,
    {
        let item = items[i];
        let ghost before = contents_of(pieces@).push(piece@);
        assert(items@.take(i + 1).drop_last() =~= items@.take(i as int));
        if separates(item) {
            let ghost ended = piece@;
            pieces.push(piece);
            piece = Vec::new();
            assert(contents_of(pieces@) =~= before);
        } else {
            piece.push(item);
            assert(contents_of(pieces@) =~= before.drop_last());
        }
        assert(contents_of(pieces@).push(piece@) =~= split(items@.take(i + 1), separator));
        i = i + 1;
    }
    let ghost before = contents_of(pieces@).push(piece@);
    pieces.push(piece);
    assert(contents_of(pieces@) =~= before);
    assert(items@.take(items@.len() as int) =~= items@);
    pieces
}

/// The non-empty pieces of a slice between the items that separate.
pub(crate) fn fields_of<T: Copy>(
    items: &[T],
    separates: impl Fn(T) -> bool,
    Ghost(separator): Ghost<spec_fn(T) -> bool>,
) -> (found: Vec<Vec<T>>)
    requires
        forall|item: T| call_requires(separates, (item,)),
        forall|item: T, answer: bool| call_ensures(separates, (item,), answer) ==> answer
            == separator(item),
    ensures
        contents_of(found@) == fields(items@, separator),
{
    let pieces = split_items(items, separates, Ghost(separator));
    let ghost all = contents_of(pieces@);
    let mut found: Vec<Vec<T>> = Vec::new();
    let mut i: usize = 0;
    assert(contents_of(found@) =~= without_empty(all.take(0)));
    while i < pieces.len()
        invariant
            i <= pieces@.len(),
            all == contents_of(pieces@),
            contents_of(found@) == without_empty(all.take(i as int)),
        decreases pieces@.len() - i,
    {
        let piece = pieces[i].as_slice();
        let ghost before = contents_of(found@);
        assert(all.take(i + 1).drop_last() =~= all.take(i as int));
        assert(all.take(i + 1).last() == piece@);
        if piece.len() > 0 {
            found.push(vstd::slice::slice_to_vec(piece));
            assert(contents_of(found@) =~= before.push(piece@));
        }
        i = i + 1;
    }
    assert(all.take(all.len() as int) =~= all);
    found
}

/// The number that decimal digits write.
pub open spec fn decimal_value(digits: Seq<u8>) -> int
    decreases digits.len(),
{
    if digits.len() == 0 {
        0
    } else {
        decimal_value(digits.drop_last()) * 10 + (digits.last() - 0x30)
    }
}

/// The bytes are all ASCII digits.
pub open spec fn are_digits(bytes: Seq<u8>) -> bool {
    forall|i: int| 0 <= i < bytes.len() ==> 0x30 <= #[trigger] bytes[i] <= 0x39
}

/// A number in decimal is read back as it was, and it has no needless zero in front.
pub proof fn decimals_are_read_back(number: nat)
    ensures
        are_digits(decimal(number)),
        decimal_value(decimal(number)) == number,
        decimal(number).len() > 0,
        decimal(number).len() > 1 ==> decimal(number)[0] != 0x30,
    decreases number,
{
    lemma_decimal_digits(number);
    if number >= 10 {
        decimals_are_read_back(number / 10);
        assert(decimal(number).drop_last() =~= decimal(number / 10));
        assert(decimal(number).last() == 0x30 + number % 10);
        assert(decimal(number)[0] == decimal(number / 10)[0]);
        if number / 10 < 10 {
            assert(decimal(number / 10) =~= seq![digit((number / 10) as int)]);
            assert(digit((number / 10) as int) == 0x30 + number / 10);
        } else {
            lemma_decimal_digits(number / 100);
            assert(decimal(number / 10).len() > 1);
        }
    } else {
        assert(decimal(number).drop_last() =~= Seq::empty());
        assert(decimal(number).last() == 0x30 + number);
        reveal_with_fuel(decimal_value, 2);
    }
}

/// A number with a sign is read back as it was: behind a minus where it is negative.
pub proof fn signed_decimals_are_read_back(number: int)
    ensures
        number >= 0 ==> are_digits(signed_decimal(number)) && decimal_value(signed_decimal(number))
            == number,
        number < 0 ==> signed_decimal(number)[0] == 0x2d && are_digits(
            signed_decimal(number).skip(1),
        ) && decimal_value(signed_decimal(number).skip(1)) == -number,
{
    if number < 0 {
        decimals_are_read_back((-number) as nat);
        assert(signed_decimal(number).skip(1) =~= decimal((-number) as nat));
    } else {
        decimals_are_read_back(number as nat);
    }
}

/// A number that has no more than `width` digits is read back as it was from its last `width`
/// digits.
pub proof fn padded_decimals_are_read_back(number: nat, width: nat)
    requires
        number < power::pow(10, width),
    ensures
        padded_decimal(number, width).len() == width,
        are_digits(padded_decimal(number, width)),
        decimal_value(padded_decimal(number, width)) == number,
    decreases width,
{
    lemma_padded_digits(number, width);
    reveal(power::pow);
    if width > 0 {
        let less = (width - 1) as nat;
        assert(power::pow(10, width) == 10 * power::pow(10, less));
        padded_decimals_are_read_back(number / 10, less);
        assert(padded_decimal(number, width).drop_last() =~= padded_decimal(number / 10, less));
    }
}

/// Where nothing separates, there is one field, and none where there is nothing.
pub proof fn fields_of_one_piece<T>(items: Seq<T>, separates: spec_fn(T) -> bool)
    requires
        forall|i: int| 0 <= i < items.len() ==> !separates(#[trigger] items[i]),
    ensures
        items.len() > 0 ==> fields(items, separates) == seq![items],
        items.len() == 0 ==> fields(items, separates) == Seq::<Seq<T>>::empty(),
{
    lemma_split_of_one_piece(items, separates);
    let pieces = seq![items];
    assert(pieces.drop_last() =~= Seq::empty());
    reveal_with_fuel(without_empty, 2);
    if items.len() > 0 {
        assert(without_empty(pieces) =~= seq![items]);
    }
}

proof fn lemma_without_empty<T>(left: Seq<Seq<T>>, right: Seq<Seq<T>>)
    ensures
        without_empty(left + right) == without_empty(left) + without_empty(right),
    decreases right.len(),
{
    if right.len() == 0 {
        assert(left + right =~= left);
        assert(without_empty(left) + without_empty(right) =~= without_empty(left));
    } else {
        lemma_without_empty(left, right.drop_last());
        assert((left + right).drop_last() =~= left + right.drop_last());
        assert((left + right).last() == right.last());
        assert(without_empty(left + right) =~= without_empty(left) + without_empty(right));
    }
}

/// The fields on both sides of a separator are the fields of the whole.
pub proof fn fields_at_separator<T>(
    left: Seq<T>,
    separator: T,
    right: Seq<T>,
    separates: spec_fn(T) -> bool,
)
    requires
        separates(separator),
    ensures
        fields(left.push(separator) + right, separates) == fields(left, separates) + fields(
            right,
            separates,
        ),
{
    lemma_split_at_separator(left, separator, right, separates);
    lemma_without_empty(split(left, separates), split(right, separates));
}

/// The characters of an ASCII text are those that its bytes are the numbers of.
pub proof fn ascii_keeps_the_numbers(bytes: Seq<u8>)
    ensures
        ascii_text(bytes).len() == bytes.len(),
        forall|i: int| 0 <= i < bytes.len() ==> #[trigger] ascii_text(bytes)[i] as int == bytes[i],
{
}

} // verus!
