//! Text as sequences of characters: comparison, search, numerals, and pieces cut out by byte
//! offsets.
use vstd::prelude::*;
use vstd::utf8::{decode_utf8, encode_utf8, is_char_boundary};

verus! {

/// `needle` occurs in `hay` as consecutive characters.
pub open spec fn contains_text(hay: Seq<char>, needle: Seq<char>) -> bool {
    exists|at: int| #[trigger] occurs_at(hay, needle, at)
}

/// `needle` stands in `hay` from the character with index `at` on.
pub open spec fn occurs_at(hay: Seq<char>, needle: Seq<char>, at: int) -> bool {
    &&& 0 <= at <= hay.len() - needle.len()
    &&& hay.subrange(at, at + needle.len()) == needle
}

/// Calls `str::find`, which gives the position of the first occurrence of `needle` in `hay`, or
/// nothing when there is none. Only whether there is one is claimed.
#[verifier::external_body]
pub(crate) fn find_text(hay: &str, needle: &str) -> (found: bool)
    ensures
        found == contains_text(hay@, needle@),
{
    hay.find(needle).is_some()
}

/// Whether two texts are the same.
pub fn same_text(a: &str, b: &str) -> (same: bool)
    ensures
        same == (a@ == b@),
{
    let x = a.as_bytes();
    let y = b.as_bytes();
    proof {
        vstd::utf8::encode_utf8_decode_utf8(a@);
        vstd::utf8::encode_utf8_decode_utf8(b@);
    }
    if x.len() != y.len() {
        return false;
    }
    let mut i: usize = 0;
    while i < x.len()
        invariant
            i <= x@.len() == y@.len(),
            x@ == encode_utf8(a@),
            y@ == encode_utf8(b@),
            x@.take(i as int) == y@.take(i as int),
        decreases x@.len() - i,
    {
        if x[i] != y[i] {
            return false;
        }
        assert(x@.take(i + 1) == x@.take(i as int).push(x@[i as int]));
        assert(y@.take(i + 1) == y@.take(i as int).push(y@[i as int]));
        i = i + 1;
    }
    assert(x@.take(i as int) == x@ && y@.take(i as int) == y@);
    true
}

/// Whether `texts` holds `text`.
pub fn has_text(texts: &Vec<String>, text: &str) -> (found: bool)
    ensures
        found == views(texts@).contains(text@),
{
    let mut i: usize = 0;
    while i < texts.len()
        invariant
            i <= texts@.len(),
            forall|j: int| 0 <= j < i ==> texts@[j]@ != text@,
        decreases texts@.len() - i,
    {
        if same_text(texts[i].as_str(), text) {
            assert(views(texts@)[i as int] == text@);
            return true;
        }
        i = i + 1;
    }
    false
}

/// The contents of a list of strings.
pub open spec fn views(texts: Seq<String>) -> Seq<Seq<char>> {
    Seq::new(texts.len(), |i: int| texts[i]@)
}

/// Whether the first character of `text` is `c`.
pub fn starts_with_char(text: &str, c: char) -> (yes: bool)
    ensures
        yes == (text@.len() > 0 && text@[0] == c),
{
    !text.is_empty() && text.get_char(0) == c
}

/// Whether the last character of `text` is `c`.
pub fn ends_with_char(text: &str, c: char) -> (yes: bool)
    ensures
        yes == (text@.len() > 0 && text@.last() == c),
{
    let n = text.unicode_len();
    n > 0 && text.get_char(n - 1) == c
}

/// The numeral of `n`, without leading zeros and with lower-case letters for the digits from ten
/// on.
pub open spec fn numeral(n: nat, radix: nat) -> Seq<char>
    recommends
        2 <= radix <= 16,
    decreases n,
{
    if radix < 2 || n < radix {
        seq!["0123456789abcdef"@[n as int]]
    } else {
        proof {
            vstd::arithmetic::div_mod::lemma_div_decreases(n as int, radix as int);
        }
        numeral(n / radix, radix).push("0123456789abcdef"@[(n % radix) as int])
    }
}

/// Writes `n` in the given radix.
pub fn numeral_text(n: u64, radix: u64) -> (text: String)
    requires
        2 <= radix <= 16,
    ensures
        text@ == numeral(n as nat, radix as nat),
    decreases n,
{
    let digits = "0123456789abcdef";
    proof {
        reveal_strlit("0123456789abcdef");
    }
    if n < radix {
        let text = digits.substring_char(n as usize, n as usize + 1).to_owned();
        assert(text@ =~= seq![digits@[n as int]]);
        text
    } else {
        proof {
            vstd::arithmetic::div_mod::lemma_div_decreases(n as int, radix as int);
            vstd::arithmetic::div_mod::lemma_mod_bound(n as int, radix as int);
        }
        let last = (n % radix) as usize;
        let mut text = numeral_text(n / radix, radix);
        text.append(digits.substring_char(last, last + 1));
        assert(text@ =~= numeral((n / radix) as nat, radix as nat).push(digits@[last as int]));
        text
    }
}

/// Byte offset `at` of `text` lies between two characters, or at an end.
pub open spec fn on_boundary(text: Seq<char>, at: int) -> bool {
    is_char_boundary(encode_utf8(text), at)
}

/// The characters of `text` whose bytes are those from `from` up to `to`.
pub open spec fn byte_range(text: Seq<char>, from: int, to: int) -> Seq<char> {
    decode_utf8(encode_utf8(text).subrange(from, to))
}

/// An offset on a boundary of a text lies within it.
proof fn lemma_boundary_in_text(bytes: Seq<u8>, at: int)
    requires
        vstd::utf8::valid_utf8(bytes),
        is_char_boundary(bytes, at),
    ensures
        0 <= at <= bytes.len(),
{
    reveal_with_fuel(is_char_boundary, 1);
}

/// Cuts `text` by byte offsets.
pub fn byte_slice(text: &str, from: usize, to: usize) -> (part: &str)
    requires
        from <= to,
        on_boundary(text@, from as int),
        on_boundary(text@, to as int),
    ensures
        part@ == byte_range(text@, from as int, to as int),
{
    let ghost bytes = encode_utf8(text@);
    proof {
        vstd::utf8::encode_utf8_valid_utf8(text@);
        lemma_boundary_in_text(bytes, from as int);
        lemma_boundary_in_text(bytes, to as int);
        vstd::utf8::valid_utf8_split(bytes, from as int);
    }
    let (_, rest) = text.split_at(from);
    proof {
        let tail = encode_utf8(rest@);
        let k = to - from;
        if k < tail.len() {
            vstd::utf8::is_char_boundary_iff_not_is_continuation_byte(bytes, to as int);
            vstd::utf8::is_char_boundary_iff_not_is_continuation_byte(tail, k);
            assert(tail[k] == bytes[to as int]);
        } else {
            vstd::utf8::is_char_boundary_start_end_of_seq(tail);
        }
    }
    let (part, _) = rest.split_at(to - from);
    proof {
        vstd::utf8::encode_utf8_decode_utf8(part@);
        assert(encode_utf8(part@) =~= bytes.subrange(from as int, to as int));
    }
    part
}

/// The part of `text` from a byte offset on.
pub fn byte_slice_from(text: &str, from: usize) -> (part: &str)
    requires
        on_boundary(text@, from as int),
    ensures
        part@ == byte_range(text@, from as int, encode_utf8(text@).len() as int),
{
    let (_, part) = text.split_at(from);
    proof {
        vstd::utf8::encode_utf8_decode_utf8(part@);
    }
    part
}

/// Cutting a text at two byte offsets and joining the parts gives the text back.
pub proof fn byte_ranges_join(text: Seq<char>, from: int, to: int)
    requires
        from <= to,
        on_boundary(text, from),
        on_boundary(text, to),
    ensures
        byte_range(text, 0, from) + byte_range(text, from, to) + byte_range(
            text,
            to,
            encode_utf8(text).len() as int,
        ) == text,
{
    let bytes = encode_utf8(text);
    vstd::utf8::encode_utf8_valid_utf8(text);
    vstd::utf8::encode_utf8_decode_utf8(text);
    lemma_boundary_in_text(bytes, from);
    lemma_boundary_in_text(bytes, to);
    vstd::utf8::decode_utf8_split(bytes, to);
    vstd::utf8::valid_utf8_split(bytes, to);
    let head = bytes.subrange(0, to);
    if from < to {
        vstd::utf8::is_char_boundary_iff_not_is_continuation_byte(bytes, from);
        vstd::utf8::is_char_boundary_iff_not_is_continuation_byte(head, from);
        assert(head[from] == bytes[from]);
    } else {
        vstd::utf8::is_char_boundary_start_end_of_seq(head);
    }
    vstd::utf8::decode_utf8_split(head, from);
    assert(head.subrange(0, from) =~= bytes.subrange(0, from));
    assert(head.subrange(from, to) =~= bytes.subrange(from, to));
}

/// The bytes of two texts one after the other.
pub proof fn lemma_encode_concat(a: Seq<char>, b: Seq<char>)
    ensures
        encode_utf8(a + b) == encode_utf8(a) + encode_utf8(b),
    decreases a.len(),
{
    if a.len() == 0 {
        assert(a + b == b);
        assert(encode_utf8(a) + encode_utf8(b) == encode_utf8(b));
    } else {
        assert((a + b).drop_first() == a.drop_first() + b);
        lemma_encode_concat(a.drop_first(), b);
        assert(encode_utf8(a + b) =~= encode_utf8(a) + encode_utf8(b));
    }
}

/// How often `c` occurs in `text`.
pub open spec fn count_char(text: Seq<char>, c: char) -> nat
    decreases text.len(),
{
    if text.len() == 0 {
        0
    } else {
        count_char(text.drop_last(), c) + if text.last() == c {
            1nat
        } else {
            0nat
        }
    }
}

/// A text has no more characters than bytes.
pub proof fn lemma_chars_at_most_bytes(text: Seq<char>)
    ensures
        text.len() <= encode_utf8(text).len(),
    decreases text.len(),
{
    if text.len() > 0 {
        lemma_chars_at_most_bytes(text.drop_first());
        vstd::utf8::char_is_scalar(text[0]);
    }
}

/// The number of the line, counted from one, that the byte at `offset` of `source` stands on.
pub open spec fn line_of(source: Seq<char>, offset: int) -> nat {
    count_char(byte_range(source, 0, offset), '\n') + 1
}

/// Counts the line breaks before `offset`.
pub fn line_number(source: &str, offset: usize) -> (line: usize)
    requires
        offset < usize::MAX,
        on_boundary(source@, offset as int),
    ensures
        line == line_of(source@, offset as int),
{
    proof {
        vstd::utf8::encode_utf8_valid_utf8(source@);
        vstd::utf8::is_char_boundary_start_end_of_seq(encode_utf8(source@));
        lemma_boundary_in_text(encode_utf8(source@), offset as int);
    }
    let head = byte_slice(source, 0, offset);
    proof {
        let bytes = encode_utf8(source@).subrange(0, offset as int);
        vstd::utf8::valid_utf8_split(encode_utf8(source@), offset as int);
        vstd::utf8::decode_utf8_encode_utf8(bytes);
        lemma_chars_at_most_bytes(head@);
    }
    let mut breaks: usize = 0;
    for c in it: head.chars()
        invariant
            it.seq() == head@,
            head@.len() <= offset < usize::MAX,
            breaks == count_char(head@.take(it.index()), '\n'),
            breaks <= it.index(),
    {
        assert(head@.take(it.index() + 1).drop_last() == head@.take(it.index()));
        if c == '\n' {
            breaks = breaks + 1;
        }
    }
    assert(head@.take(head@.len() as int) == head@);
    breaks + 1
}

proof fn lemma_count_concat(a: Seq<char>, b: Seq<char>, c: char)
    ensures
        count_char(a + b, c) == count_char(a, c) + count_char(b, c),
    decreases b.len(),
{
    if b.len() == 0 {
        assert(a + b == a);
    } else {
        assert((a + b).drop_last() == a + b.drop_last());
        lemma_count_concat(a, b.drop_last(), c);
    }
}

/// Lines are counted from one, and a later place never stands on an earlier line.
pub proof fn lines_are_in_order(source: Seq<char>, first: int, second: int)
    requires
        first <= second,
        on_boundary(source, first),
        on_boundary(source, second),
    ensures
        1 <= line_of(source, first) <= line_of(source, second),
        line_of(source, 0) == 1,
{
    let bytes = encode_utf8(source);
    vstd::utf8::encode_utf8_valid_utf8(source);
    lemma_boundary_in_text(bytes, first);
    lemma_boundary_in_text(bytes, second);
    vstd::utf8::valid_utf8_split(bytes, second);
    let head = bytes.subrange(0, second);
    if first < second {
        vstd::utf8::is_char_boundary_iff_not_is_continuation_byte(bytes, first);
        vstd::utf8::is_char_boundary_iff_not_is_continuation_byte(head, first);
        assert(head[first] == bytes[first]);
    } else {
        vstd::utf8::is_char_boundary_start_end_of_seq(head);
    }
    vstd::utf8::decode_utf8_split(head, first);
    assert(head.subrange(0, first) =~= bytes.subrange(0, first));
    lemma_count_concat(
        byte_range(source, 0, first),
        decode_utf8(head.subrange(first, second)),
        '\n',
    );
    assert(bytes.subrange(0, 0) =~= Seq::<u8>::empty());
    assert(decode_utf8(Seq::<u8>::empty()) =~= Seq::<char>::empty());
}

/// The contents of a list of strings are those of its strings, one by one.
pub proof fn views_are_the_texts(texts: Seq<String>, text: Seq<char>)
    ensures
        views(texts).len() == texts.len(),
        forall|i: int| 0 <= i < texts.len() ==> #[trigger] views(texts)[i] == texts[i]@,
        views(texts).contains(text) <==> exists|i: int|
            0 <= i < texts.len() && (#[trigger] texts[i])@ == text,
{
    if views(texts).contains(text) {
        let i = choose|i: int| 0 <= i < views(texts).len() && views(texts)[i] == text;
        assert(texts[i]@ == text);
    }
    if exists|i: int| 0 <= i < texts.len() && (#[trigger] texts[i])@ == text {
        let i = choose|i: int| 0 <= i < texts.len() && (#[trigger] texts[i])@ == text;
        assert(views(texts)[i] == text);
    }
}

/// A text occurs in another exactly if the other is made of something, the text, and something.
pub proof fn texts_occur_between_others(hay: Seq<char>, needle: Seq<char>)
    ensures
        contains_text(hay, needle) <==> exists|a: Seq<char>, b: Seq<char>|
            hay == #[trigger] (a + needle + b),
        forall|a: Seq<char>, b: Seq<char>| contains_text(#[trigger] (a + needle + b), needle),
{
    assert forall|a: Seq<char>, b: Seq<char>| contains_text(
        #[trigger] (a + needle + b),
        needle,
    ) by {
        let whole = a + needle + b;
        assert(whole.subrange(a.len() as int, (a.len() + needle.len()) as int) =~= needle);
        assert(occurs_at(whole, needle, a.len() as int));
    }
    if contains_text(hay, needle) {
        let at = choose|at: int| #[trigger] occurs_at(hay, needle, at);
        let a = hay.take(at);
        let b = hay.skip(at + needle.len());
        assert(hay.subrange(at, at + needle.len()) == needle);
        assert(hay =~= a + needle + b);
    }
}

/// The value of a digit.
pub open spec fn digit_value(c: char) -> int {
    if '0' <= c <= '9' {
        c as int - '0' as int
    } else if 'a' <= c <= 'f' {
        c as int - 'a' as int + 10
    } else {
        -1
    }
}

/// The number that digits stand for.
pub open spec fn digits_value(digits: Seq<char>, radix: int) -> int
    decreases digits.len(),
{
    if digits.len() == 0 {
        0
    } else {
        digits_value(digits.drop_last(), radix) * radix + digit_value(digits.last())
    }
}

/// A numeral is made of digits, stands for its number, and has no zero in front of others.
pub proof fn numerals_stand_for_numbers(n: nat, radix: nat)
    requires
        2 <= radix <= 16,
    ensures
        digits_value(numeral(n, radix), radix as int) == n,
        numeral(n, radix).len() > 0,
        numeral(n, radix).len() > 1 ==> numeral(n, radix)[0] != '0',
        forall|i: int|
            0 <= i < numeral(n, radix).len() ==> 0 <= digit_value(
                #[trigger] numeral(n, radix)[i],
            ) < radix,
        n > 0 ==> numeral(n, radix)[0] != '0',
    decreases n,
{
    reveal_strlit("0123456789abcdef");
    let digits = "0123456789abcdef"@;
    assert forall|d: int| 0 <= d < 16 implies digit_value(#[trigger] digits[d]) == d by {}
    let text = numeral(n, radix);
    if n < radix {
        assert(text =~= seq![digits[n as int]]);
        assert(text.drop_last() =~= seq![]);
        reveal_with_fuel(digits_value, 2);
        assert(digit_value(digits[n as int]) == n);
    } else {
        vstd::arithmetic::div_mod::lemma_div_decreases(n as int, radix as int);
        vstd::arithmetic::div_mod::lemma_mod_bound(n as int, radix as int);
        vstd::arithmetic::div_mod::lemma_fundamental_div_mod(n as int, radix as int);
        vstd::arithmetic::div_mod::lemma_div_non_zero(n as int, radix as int);
        let high = numeral(n / radix, radix);
        let low = n % radix;
        numerals_stand_for_numbers(n / radix, radix);
        assert(text == high.push(digits[low as int]));
        assert(text.drop_last() =~= high);
        assert(digit_value(digits[low as int]) == low);
        assert((n / radix) * radix == radix * (n / radix)) by (nonlinear_arith);
        assert(text[0] == high[0]);
    }
}

/// Cutting by byte offsets gives the characters of just those bytes.
pub proof fn byte_ranges_are_exact(text: Seq<char>, from: int, to: int)
    requires
        from <= to,
        on_boundary(text, from),
        on_boundary(text, to),
    ensures
        0 <= from <= to <= encode_utf8(text).len(),
        encode_utf8(byte_range(text, from, to)) == encode_utf8(text).subrange(from, to),
{
    let bytes = encode_utf8(text);
    vstd::utf8::encode_utf8_valid_utf8(text);
    lemma_boundary_in_text(bytes, from);
    lemma_boundary_in_text(bytes, to);
    vstd::utf8::valid_utf8_split(bytes, to);
    let head = bytes.subrange(0, to);
    if from < to {
        vstd::utf8::is_char_boundary_iff_not_is_continuation_byte(bytes, from);
        vstd::utf8::is_char_boundary_iff_not_is_continuation_byte(head, from);
        assert(head[from] == bytes[from]);
    } else {
        vstd::utf8::is_char_boundary_start_end_of_seq(head);
    }
    vstd::utf8::valid_utf8_split(head, from);
    assert(head.subrange(from, to) =~= bytes.subrange(from, to));
    vstd::utf8::decode_utf8_encode_utf8(bytes.subrange(from, to));
}

/// Each line break begins a new line, and nothing else does: the place behind a character stands
/// one line further down than the place before it if the character is a line break, else on the
/// same line.
pub proof fn line_breaks_begin_lines(before: Seq<char>, c: char, behind: Seq<char>)
    ensures
        ({
            let source = before.push(c) + behind;
            let at = encode_utf8(before).len() as int;
            let next = encode_utf8(before.push(c)).len() as int;
            &&& line_of(source, 0) == 1
            &&& line_of(source, next) == line_of(source, at) + if c == '\n' {
                1nat
            } else {
                0nat
            }
        }),
{
    let source = before.push(c) + behind;
    let rest = seq![c] + behind;
    assert(source =~= before + rest);
    lemma_encode_concat(before, rest);
    lemma_encode_concat(before.push(c), behind);
    vstd::utf8::encode_utf8_decode_utf8(before);
    vstd::utf8::encode_utf8_decode_utf8(before.push(c));
    assert(encode_utf8(source).subrange(0, encode_utf8(before).len() as int) =~= encode_utf8(
        before,
    ));
    assert(encode_utf8(source).subrange(0, encode_utf8(before.push(c)).len() as int)
        =~= encode_utf8(before.push(c)));
    assert(before.push(c).drop_last() =~= before);
    assert(encode_utf8(source).subrange(0, 0) =~= Seq::<u8>::empty());
    assert(decode_utf8(Seq::<u8>::empty()) =~= Seq::<char>::empty());
}

} // verus!
