//! The coordinate grammar: text to a (row, column) board position.
//!
//! Accepted forms, case-insensitive and with whitespace allowed around and
//! between tokens, as long as the whole input is consumed:
//! - a letter run then a number: column from the letters, row from the number;
//! - a number then a letter run: row from the number, column from the letters;
//! - two whitespace-separated numbers: column from the first, row from the second;
//! - a single number: a 1-indexed linear cell index.
//!
//! Numbers are 1-indexed. A letter run is read as a positional base-26 value
//! with `a` as 0. Anything else fails the parse; nothing is ever reported as
//! an error.

use vstd::prelude::*;

verus! {

/// The whitespace the grammar skips: the Unicode white-space characters.
pub open spec fn is_ws_char(c: char) -> bool {
    let u = c as u32;
    u == 0x20 || (0x09 <= u && u <= 0x0D) || u == 0x85 || u == 0xA0 || u == 0x1680 || (0x2000 <= u
        && u <= 0x200A) || u == 0x2028 || u == 0x2029 || u == 0x202F || u == 0x205F || u == 0x3000
}

/// An ASCII letter.
pub open spec fn is_alpha_char(c: char) -> bool {
    (97 <= c as u32 && c as u32 <= 122) || (65 <= c as u32 && c as u32 <= 90)
}

/// An ASCII digit.
pub open spec fn is_digit_char(c: char) -> bool {
    48 <= c as u32 && c as u32 <= 57
}

/// The lowercase form of an ASCII letter; other characters are unchanged.
pub open spec fn lower_char(c: char) -> char {
    if 65 <= c as u32 && c as u32 <= 90 {
        ((c as u32) + 32) as char
    } else {
        c
    }
}

/// The first position at or after `i` that does not hold whitespace.
pub open spec fn skip_ws_from(s: Seq<char>, i: int) -> int
    decreases s.len() - i
        when 0 <= i <= s.len()
{
    if i == s.len() {
        i
    } else if is_ws_char(s[i]) {
        skip_ws_from(s, i + 1)
    } else {
        i
    }
}

/// The end of the letter run that starts at `i`.
pub open spec fn alpha_end_from(s: Seq<char>, i: int) -> int
    decreases s.len() - i
        when 0 <= i <= s.len()
{
    if i == s.len() {
        i
    } else if is_alpha_char(s[i]) {
        alpha_end_from(s, i + 1)
    } else {
        i
    }
}

/// The end of the digit run that starts at `i`.
pub open spec fn digit_end_from(s: Seq<char>, i: int) -> int
    decreases s.len() - i
        when 0 <= i <= s.len()
{
    if i == s.len() {
        i
    } else if is_digit_char(s[i]) {
        digit_end_from(s, i + 1)
    } else {
        i
    }
}

/// The positional base-26 value of the letters `s[i..j)`, `a` = 0, read left
/// to right.
pub open spec fn alpha_val(s: Seq<char>, i: int, j: int) -> int
    decreases j - i
        when i <= j
{
    if j <= i {
        0
    } else {
        alpha_val(s, i, j - 1) * 26 + (lower_char(s[j - 1]) as u32 - 97)
    }
}

/// The decimal value of the digits `s[i..j)`.
pub open spec fn number_val(s: Seq<char>, i: int, j: int) -> int
    decreases j - i
        when i <= j
{
    if j <= i {
        0
    } else {
        number_val(s, i, j - 1) * 10 + (s[j - 1] as u32 - 48)
    }
}

/// Where a scan stops: never before `i`, never past the end, on a character
/// outside its class, with every skipped character inside its class.
pub proof fn lemma_skip_ws_from(s: Seq<char>, i: int)
    requires
        0 <= i <= s.len(),
    ensures
        i <= skip_ws_from(s, i) <= s.len(),
        skip_ws_from(s, i) < s.len() ==> !is_ws_char(s[skip_ws_from(s, i)]),
        forall|j: int| i <= j < skip_ws_from(s, i) ==> is_ws_char(#[trigger] s[j]),
    decreases s.len() - i,
{
    if i < s.len() && is_ws_char(s[i]) {
        lemma_skip_ws_from(s, i + 1);
    }
}

/// Like `lemma_skip_ws_from`, for digit runs.
pub proof fn lemma_digit_end_from(s: Seq<char>, i: int)
    requires
        0 <= i <= s.len(),
    ensures
        i <= digit_end_from(s, i) <= s.len(),
        digit_end_from(s, i) < s.len() ==> !is_digit_char(s[digit_end_from(s, i)]),
        forall|j: int| i <= j < digit_end_from(s, i) ==> is_digit_char(#[trigger] s[j]),
    decreases s.len() - i,
{
    if i < s.len() && is_digit_char(s[i]) {
        lemma_digit_end_from(s, i + 1);
    }
}

/// The letters-then-number form, with the letter run already delimited as
/// `s[i0..a_end)`: the letters give the column, the number the 1-indexed row.
pub open spec fn spec_parse_alpha_number(size: int, s: Seq<char>, i0: int, a_end: int) -> Option<
    (int, int),
> {
    let col = alpha_val(s, i0, a_end);
    let i1 = skip_ws_from(s, a_end);
    let d_end = digit_end_from(s, i1);
    if d_end == i1 {
        None
    } else if skip_ws_from(s, d_end) != s.len() {
        None
    } else {
        let row = number_val(s, i1, d_end) - 1;
        if 0 <= row < size && 0 <= col < size {
            Some((row, col))
        } else {
            None
        }
    }
}

/// The number-then-letters form, both runs already delimited: the first
/// number gives the 1-indexed row, the letters the column.
pub open spec fn spec_parse_number_alpha(
    size: int,
    s: Seq<char>,
    n1: int,
    i1: int,
    a_end: int,
) -> Option<(int, int)> {
    if skip_ws_from(s, a_end) != s.len() {
        None
    } else {
        let row = n1 - 1;
        let col = alpha_val(s, i1, a_end);
        if 0 <= row < size && 0 <= col < size {
            Some((row, col))
        } else {
            None
        }
    }
}

/// The two-numbers form: the first number gives the 1-indexed column, the
/// second the 1-indexed row.
pub open spec fn spec_parse_number_number(
    size: int,
    s: Seq<char>,
    n1: int,
    i1: int,
    d_end: int,
) -> Option<(int, int)> {
    if skip_ws_from(s, d_end) != s.len() {
        None
    } else {
        let col = n1 - 1;
        let row = number_val(s, i1, d_end) - 1;
        if 0 <= row < size && 0 <= col < size {
            Some((row, col))
        } else {
            None
        }
    }
}

/// The single-number form: a 1-indexed linear cell index, split row-major.
pub open spec fn spec_parse_number(size: int, n1: int) -> Option<(int, int)> {
    let row = (n1 - 1) / size;
    let col = (n1 - 1) % size;
    if 0 <= row < size && 0 <= col < size {
        Some((row, col))
    } else {
        None
    }
}

/// The whole grammar: the (row, column) position that the text denotes on a
/// board of side length `size`, or nothing when the text fits no form, is
/// not consumed completely, or denotes a position off the board.
pub open spec fn spec_parse(size: int, s: Seq<char>) -> Option<(int, int)> {
    let i0 = skip_ws_from(s, 0);
    let a_end = alpha_end_from(s, i0);
    let d_end = digit_end_from(s, i0);
    if a_end > i0 {
        spec_parse_alpha_number(size, s, i0, a_end)
    } else if d_end > i0 {
        let n1 = number_val(s, i0, d_end);
        let i1 = skip_ws_from(s, d_end);
        let a2 = alpha_end_from(s, i1);
        let d2 = digit_end_from(s, i1);
        if a2 > i1 {
            spec_parse_number_alpha(size, s, n1, i1, a2)
        } else if d2 > i1 {
            spec_parse_number_number(size, s, n1, i1, d2)
        } else if i1 == s.len() {
            spec_parse_number(size, n1)
        } else {
            None
        }
    } else {
        None
    }
}

/// The positional base-26 value of an already-extracted lowercase letter run.
pub open spec fn letters_val(v: Seq<char>) -> int
    decreases v.len(),
{
    if v.len() == 0 {
        0
    } else {
        letters_val(v.drop_last()) * 26 + (v.last() as u32 - 97)
    }
}

/// The decimal value of an already-extracted digit run.
pub open spec fn digits_val(v: Seq<char>) -> int
    decreases v.len(),
{
    if v.len() == 0 {
        0
    } else {
        digits_val(v.drop_last()) * 10 + (v.last() as u32 - 48)
    }
}

/// Reading more letters never shrinks the value.
proof fn lemma_letters_val_prefix(v: Seq<char>, m: int)
    requires
        forall|k: int| 0 <= k < v.len() ==> 97 <= (#[trigger] v[k]) as u32 <= 122,
        0 <= m <= v.len(),
    ensures
        0 <= letters_val(v.take(m)) <= letters_val(v),
    decreases v.len(),
{
    if m == v.len() {
        assert(v.take(m) =~= v);
        lemma_letters_val_nonneg(v);
    } else {
        let prefix = v.drop_last();
        assert(forall|k: int| 0 <= k < prefix.len() ==> 97 <= (#[trigger] prefix[k]) as u32 <= 122);
        lemma_letters_val_prefix(prefix, m);
        assert(v.take(m) =~= prefix.take(m));
        lemma_letters_val_nonneg(prefix);
    }
}

proof fn lemma_letters_val_nonneg(v: Seq<char>)
    requires
        forall|k: int| 0 <= k < v.len() ==> 97 <= (#[trigger] v[k]) as u32 <= 122,
    ensures
        letters_val(v) >= 0,
    decreases v.len(),
{
    if v.len() > 0 {
        let prefix = v.drop_last();
        assert(forall|k: int| 0 <= k < prefix.len() ==> 97 <= (#[trigger] prefix[k]) as u32 <= 122);
        lemma_letters_val_nonneg(prefix);
    }
}

/// Reading more digits never shrinks the value.
proof fn lemma_digits_val_prefix(v: Seq<char>, m: int)
    requires
        forall|k: int| 0 <= k < v.len() ==> 48 <= (#[trigger] v[k]) as u32 <= 57,
        0 <= m <= v.len(),
    ensures
        0 <= digits_val(v.take(m)) <= digits_val(v),
    decreases v.len(),
{
    if m == v.len() {
        assert(v.take(m) =~= v);
        lemma_digits_val_nonneg(v);
    } else {
        let prefix = v.drop_last();
        assert(forall|k: int| 0 <= k < prefix.len() ==> 48 <= (#[trigger] prefix[k]) as u32 <= 57);
        lemma_digits_val_prefix(prefix, m);
        assert(v.take(m) =~= prefix.take(m));
        lemma_digits_val_nonneg(prefix);
    }
}

proof fn lemma_digits_val_nonneg(v: Seq<char>)
    requires
        forall|k: int| 0 <= k < v.len() ==> 48 <= (#[trigger] v[k]) as u32 <= 57,
    ensures
        digits_val(v) >= 0,
    decreases v.len(),
{
    if v.len() > 0 {
        let prefix = v.drop_last();
        assert(forall|k: int| 0 <= k < prefix.len() ==> 48 <= (#[trigger] prefix[k]) as u32 <= 57);
        lemma_digits_val_nonneg(prefix);
    }
}

/// A lowercased copy of `s[i..j)` has the value that the grammar assigns to
/// that letter run in place.
proof fn lemma_letters_val_matches(s: Seq<char>, i: int, j: int, v: Seq<char>)
    requires
        0 <= i <= j <= s.len(),
        v.len() == j - i,
        forall|k: int| 0 <= k < v.len() ==> v[k] == lower_char(#[trigger] s[i + k]),
    ensures
        letters_val(v) == alpha_val(s, i, j),
    decreases j - i,
{
    if j > i {
        let prefix = v.drop_last();
        assert(forall|k: int|
            0 <= k < prefix.len() ==> prefix[k] == lower_char(#[trigger] s[i + k]));
        lemma_letters_val_matches(s, i, j - 1, prefix);
        assert(v.last() == lower_char(s[i + (j - i - 1)]));
    }
}

/// A copy of the digit run `s[i..j)` has the value the grammar assigns to it.
pub proof fn lemma_digits_val_matches(s: Seq<char>, i: int, j: int, v: Seq<char>)
    requires
        0 <= i <= j <= s.len(),
        v.len() == j - i,
        forall|k: int| 0 <= k < v.len() ==> v[k] == #[trigger] s[i + k],
    ensures
        digits_val(v) == number_val(s, i, j),
    decreases j - i,
{
    if j > i {
        let prefix = v.drop_last();
        assert(forall|k: int| 0 <= k < prefix.len() ==> prefix[k] == #[trigger] s[i + k]);
        lemma_digits_val_matches(s, i, j - 1, prefix);
        assert(v.last() == s[i + (j - i - 1)]);
    }
}

/// The base-26 value of a lowercase letter run, or nothing when it does not
/// fit in `usize`.
pub fn alpha_to_index(lowercased_alpha: &Vec<char>) -> (r: Option<usize>)
    requires
        forall|k: int|
            0 <= k < lowercased_alpha@.len() ==> 97 <= (#[trigger] lowercased_alpha@[k]) as u32
                <= 122,
    ensures
        match r {
            Some(u) => u == letters_val(lowercased_alpha@),
            None => letters_val(lowercased_alpha@) > usize::MAX,
        },
{
    let mut value: u128 = 0;
    let mut k: usize = 0;
    let len = lowercased_alpha.len();
    while k < len
        invariant
            k <= len,
            len == lowercased_alpha@.len(),
            forall|m: int|
                0 <= m < lowercased_alpha@.len() ==> 97 <= (#[trigger] lowercased_alpha@[m]) as u32
                    <= 122,
            value == letters_val(lowercased_alpha@.take(k as int)),
            value <= usize::MAX as u128,
        decreases len - k,
    {
        let c = lowercased_alpha[k];
        let d = (c as u32) - 97;
        let next = value * 26 + (d as u128);
        proof {
            assert(lowercased_alpha@.take(k + 1).drop_last() =~= lowercased_alpha@.take(k as int));
            assert(lowercased_alpha@.take(k + 1).last() == c);
        }
        if next > (usize::MAX as u128) {
            proof {
                lemma_letters_val_prefix(lowercased_alpha@, k + 1);
                assert(lowercased_alpha@.take(len as int) =~= lowercased_alpha@);
            }
            return None;
        }
        value = next;
        k = k + 1;
    }
    proof {
        assert(lowercased_alpha@.take(len as int) =~= lowercased_alpha@);
    }
    Some(value as usize)
}

/// The decimal value of a digit run, or nothing when it does not fit in
/// `usize`.
pub fn number_to_index(number: &Vec<char>) -> (r: Option<usize>)
    requires
        forall|k: int| 0 <= k < number@.len() ==> 48 <= (#[trigger] number@[k]) as u32 <= 57,
    ensures
        match r {
            Some(u) => u == digits_val(number@),
            None => digits_val(number@) > usize::MAX,
        },
{
    let mut value: u128 = 0;
    let mut k: usize = 0;
    let len = number.len();
    while k < len
        invariant
            k <= len,
            len == number@.len(),
            forall|m: int| 0 <= m < number@.len() ==> 48 <= (#[trigger] number@[m]) as u32 <= 57,
            value == digits_val(number@.take(k as int)),
            value <= usize::MAX as u128,
        decreases len - k,
    {
        let c = number[k];
        let d = (c as u32) - 48;
        let next = value * 10 + (d as u128);
        proof {
            assert(number@.take(k + 1).drop_last() =~= number@.take(k as int));
            assert(number@.take(k + 1).last() == c);
        }
        if next > (usize::MAX as u128) {
            proof {
                lemma_digits_val_prefix(number@, k + 1);
                assert(number@.take(len as int) =~= number@);
            }
            return None;
        }
        value = next;
        k = k + 1;
    }
    proof {
        assert(number@.take(len as int) =~= number@);
    }
    Some(value as usize)
}

/// A parsed position: 0-indexed row and column.
#[derive(Debug, Clone, Copy, PartialEq, Eq, Structural, Hash)]
pub struct Index {
    pub row: usize,
    pub column: usize,
}

impl Index {
    pub fn is_valid(self, size: usize) -> (r: bool)
        ensures
            r == (self.row < size && self.column < size),
    {
        self.row < size && self.column < size
    }

    pub fn to_index(self, size: usize) -> (r: usize)
        requires
            self.row < size,
            self.column < size,
            size * size <= usize::MAX,
        ensures
            r == self.row * size + self.column,
    {
        proof {
            assert((self.row as int) * (size as int) + (self.column as int) < (size as int) * (
            size as int)) by (nonlinear_arith)
                requires
                    (self.row as int) < (size as int),
                    (self.column as int) < (size as int),
                    0 <= self.row as int,
                    0 <= self.column as int,
            ;
        }
        self.row * size + self.column
    }
}

/// A 1-indexed linear index beyond every machine integer lies off the board.
proof fn lemma_linear_index_out_of_range(size: int, n1: int)
    requires
        0 <= size,
        size * size <= usize::MAX,
        n1 > usize::MAX,
    ensures
        spec_parse_number(size, n1) is None,
{
    if size > 0 {
        vstd::arithmetic::div_mod::lemma_div_by_multiple(size, size);
        vstd::arithmetic::div_mod::lemma_div_is_ordered(size * size, n1 - 1, size);
    }
}

/// The number 0 denotes no cell: the grammar is 1-indexed.
proof fn lemma_linear_index_of_zero(size: int)
    requires
        0 <= size,
    ensures
        spec_parse_number(size, 0) is None,
{
    if size >= 1 {
        vstd::arithmetic::div_mod::lemma_fundamental_div_mod(-1, size);
        vstd::arithmetic::div_mod::lemma_mod_bound(-1, size);
        let q = (-1int) / size;
        let r = (-1int) % size;
        assert(q < 0) by (nonlinear_arith)
            requires
                size * q + r == -1,
                0 <= r < size,
                size >= 1,
        ;
    }
}

fn is_ws(c: char) -> (r: bool)
    ensures
        r == is_ws_char(c),
{
    let u = c as u32;
    u == 0x20 || (0x09 <= u && u <= 0x0D) || u == 0x85 || u == 0xA0 || u == 0x1680 || (0x2000 <= u
        && u <= 0x200A) || u == 0x2028 || u == 0x2029 || u == 0x202F || u == 0x205F || u == 0x3000
}

fn is_alpha(c: char) -> (r: bool)
    ensures
        r == is_alpha_char(c),
{
    let u = c as u32;
    (97 <= u && u <= 122) || (65 <= u && u <= 90)
}

fn is_digit(c: char) -> (r: bool)
    ensures
        r == is_digit_char(c),
{
    let u = c as u32;
    48 <= u && u <= 57
}

fn to_lower(c: char) -> (r: char)
    ensures
        r == lower_char(c),
{
    let u = c as u32;
    if 65 <= u && u <= 90 {
        ((u + 32) as u8) as char
    } else {
        c
    }
}

/// A one-shot parser over a copy of the input text.
#[derive(Debug, Clone)]
pub struct IndexParser {
    size: usize,
    chars: Vec<char>,
    pos: usize,
}

impl IndexParser {
    /// The board side length the parser validates against.
    pub closed spec fn spec_size(&self) -> int {
        self.size as int
    }

    /// The input text.
    pub closed spec fn text(&self) -> Seq<char> {
        self.chars@
    }

    /// How much of the input has been consumed.
    pub closed spec fn spec_pos(&self) -> int {
        self.pos as int
    }

    pub open spec fn wf(&self) -> bool {
        &&& 0 <= self.spec_pos() <= self.text().len()
        &&& self.spec_size() * self.spec_size() <= usize::MAX
    }

    pub fn new(size: usize, index: &str) -> (r: IndexParser)
        requires
            size * size <= usize::MAX,
        ensures
            r.wf(),
            r.spec_size() == size,
            r.text() == index@,
            r.spec_pos() == 0,
    {
        let mut chars: Vec<char> = Vec::new();
        let len = index.unicode_len();
        let mut i: usize = 0;
        while i < len
            invariant
                i <= len,
                len == index@.len(),
                chars@ == index@.take(i as int),
            decreases len - i,
        {
            let c = index.get_char(i);
            chars.push(c);
            proof {
                assert(chars@ =~= index@.take(i + 1));
            }
            i = i + 1;
        }
        proof {
            assert(index@.take(len as int) =~= index@);
        }
        IndexParser { size, chars, pos: 0 }
    }

    fn is_end(&self) -> (r: bool)
        ensures
            r == (self.spec_pos() == self.text().len()),
    {
        self.pos == self.chars.len()
    }

    /// Advance past whitespace.
    fn skip_whitespace(&mut self)
        requires
            old(self).wf(),
        ensures
            final(self).wf(),
            final(self).text() == old(self).text(),
            final(self).spec_size() == old(self).spec_size(),
            final(self).spec_pos() == skip_ws_from(old(self).text(), old(self).spec_pos()),
    {
        while self.pos < self.chars.len() && is_ws(self.chars[self.pos])
            invariant
                self.wf(),
                self.text() == old(self).text(),
                self.spec_size() == old(self).spec_size(),
                skip_ws_from(self.text(), self.spec_pos()) == skip_ws_from(
                    old(self).text(),
                    old(self).spec_pos(),
                ),
            decreases self.text().len() - self.spec_pos(),
        {
            self.pos = self.pos + 1;
        }
    }

    /// Read a letter run, lowercased; nothing when none starts here.
    fn read_alpha(&mut self) -> (r: Option<Vec<char>>)
        requires
            old(self).wf(),
        ensures
            final(self).wf(),
            final(self).text() == old(self).text(),
            final(self).spec_size() == old(self).spec_size(),
            ({
                let e = alpha_end_from(old(self).text(), old(self).spec_pos());
                match r {
                    None => e == old(self).spec_pos() && final(self).spec_pos() == old(
                        self,
                    ).spec_pos(),
                    Some(v) => {
                        &&& e > old(self).spec_pos()
                        &&& final(self).spec_pos() == e
                        &&& v@.len() == e - old(self).spec_pos()
                        &&& forall|k: int|
                            0 <= k < v@.len() ==> v@[k] == lower_char(
                                #[trigger] old(self).text()[old(self).spec_pos() + k],
                            )
                        &&& forall|k: int| 0 <= k < v@.len() ==> 97 <= (#[trigger] v@[k]) as u32
                            <= 122
                    },
                }
            }),
    {
        let mut alpha: Vec<char> = Vec::new();
        while self.pos < self.chars.len() && is_alpha(self.chars[self.pos])
            invariant
                self.wf(),
                self.text() == old(self).text(),
                self.spec_size() == old(self).spec_size(),
                old(self).spec_pos() <= self.spec_pos(),
                alpha@.len() == self.spec_pos() - old(self).spec_pos(),
                forall|k: int|
                    0 <= k < alpha@.len() ==> alpha@[k] == lower_char(
                        #[trigger] old(self).text()[old(self).spec_pos() + k],
                    ),
                forall|k: int| 0 <= k < alpha@.len() ==> 97 <= (#[trigger] alpha@[k]) as u32 <= 122,
                alpha_end_from(self.text(), self.spec_pos()) == alpha_end_from(
                    old(self).text(),
                    old(self).spec_pos(),
                ),
            decreases self.text().len() - self.spec_pos(),
        {
            let c = self.chars[self.pos];
            alpha.push(to_lower(c));
            self.pos = self.pos + 1;
        }
        if alpha.len() > 0 {
            Some(alpha)
        } else {
            None
        }
    }

    /// Parse the whole input against the grammar. The parser is one-shot:
    /// it starts at the beginning of its text.
    pub fn parse(&mut self) -> (r: Option<Index>)
        requires
            old(self).wf(),
            old(self).spec_pos() == 0,
        ensures
            match r {
                Some(ix) => spec_parse(old(self).spec_size(), old(self).text()) == Some(
                    ((ix.row as int), (ix.column as int)),
                ),
                None => spec_parse(old(self).spec_size(), old(self).text()) is None,
            },
    {
        let ghost s = old(self).text();
        let ghost size = old(self).spec_size();
        self.skip_whitespace();
        let ghost i0 = self.spec_pos();
        proof {
            lemma_skip_ws_from(s, 0);
        }
        if let Some(alpha) = self.read_alpha() {
            return self.parse_pattern_alpha_number(alpha);
        }
        if let Some(number) = self.read_number() {
            let ghost d1 = self.spec_pos();
            proof {
                lemma_digit_end_from(s, i0);
                lemma_digits_val_matches(s, i0, d1, number@);
            }
            self.skip_whitespace();
            let ghost i1 = self.spec_pos();
            if let Some(alpha) = self.read_alpha() {
                return self.parse_pattern_number_alpha(number, alpha);
            }
            if let Some(second_number) = self.read_number() {
                return self.parse_pattern_number_number(number, second_number);
            }
            if self.is_end() {
                return self.parse_pattern_number(number);
            }
        }
        None
    }

    /// Finish the letters-then-number form: the letters are already read and
    /// lowercased, the number and any surrounding whitespace follow.
    fn parse_pattern_alpha_number(&mut self, alpha: Vec<char>) -> (r: Option<Index>)
        requires
            old(self).wf(),
            alpha@.len() <= old(self).spec_pos(),
            forall|k: int| 0 <= k < alpha@.len() ==> 97 <= (#[trigger] alpha@[k]) as u32 <= 122,
            forall|k: int|
                0 <= k < alpha@.len() ==> alpha@[k] == lower_char(
                    #[trigger] old(self).text()[old(self).spec_pos() - alpha@.len() + k],
                ),
        ensures
            ({
                let sp = spec_parse_alpha_number(
                    old(self).spec_size(),
                    old(self).text(),
                    old(self).spec_pos() - alpha@.len(),
                    old(self).spec_pos(),
                );
                match r {
                    Some(ix) => sp == Some(((ix.row as int), (ix.column as int))),
                    None => sp is None,
                }
            }),
    {
        let ghost s = old(self).text();
        let ghost a_end = old(self).spec_pos();
        let ghost i0 = a_end - alpha@.len();
        proof {
            lemma_letters_val_matches(s, i0, a_end, alpha@);
        }
        self.skip_whitespace();
        let ghost i1 = self.spec_pos();
        let number = match self.read_number() {
            Some(number) => number,
            None => {
                return None;
            },
        };
        let ghost d_end = self.spec_pos();
        proof {
            lemma_digits_val_matches(s, i1, d_end, number@);
        }
        self.skip_whitespace();
        if !self.is_end() {
            return None;
        }
        let alpha_index = match alpha_to_index(&alpha) {
            Some(v) => v,
            None => {
                return None;
            },
        };
        let number_index = match number_to_index(&number) {
            Some(v) => v,
            None => {
                return None;
            },
        };
        if number_index == 0 {
            return None;
        }
        let index = Index { row: number_index - 1, column: alpha_index };
        if index.is_valid(self.size) {
            Some(index)
        } else {
            None
        }
    }

    /// Finish the number-then-letters form: both runs are already read, only
    /// trailing whitespace may remain.
    fn parse_pattern_number_alpha(&mut self, number: Vec<char>, alpha: Vec<char>) -> (r: Option<
        Index,
    >)
        requires
            old(self).wf(),
            forall|k: int| 0 <= k < number@.len() ==> 48 <= (#[trigger] number@[k]) as u32 <= 57,
            alpha@.len() <= old(self).spec_pos(),
            forall|k: int| 0 <= k < alpha@.len() ==> 97 <= (#[trigger] alpha@[k]) as u32 <= 122,
            forall|k: int|
                0 <= k < alpha@.len() ==> alpha@[k] == lower_char(
                    #[trigger] old(self).text()[old(self).spec_pos() - alpha@.len() + k],
                ),
        ensures
            ({
                let sp = spec_parse_number_alpha(
                    old(self).spec_size(),
                    old(self).text(),
                    digits_val(number@),
                    old(self).spec_pos() - alpha@.len(),
                    old(self).spec_pos(),
                );
                match r {
                    Some(ix) => sp == Some(((ix.row as int), (ix.column as int))),
                    None => sp is None,
                }
            }),
    {
        let ghost s = old(self).text();
        let ghost a_end = old(self).spec_pos();
        let ghost i1 = a_end - alpha@.len();
        proof {
            lemma_letters_val_matches(s, i1, a_end, alpha@);
        }
        self.skip_whitespace();
        if !self.is_end() {
            return None;
        }
        let number_index = match number_to_index(&number) {
            Some(v) => v,
            None => {
                return None;
            },
        };
        if number_index == 0 {
            return None;
        }
        let alpha_index = match alpha_to_index(&alpha) {
            Some(v) => v,
            None => {
                return None;
            },
        };
        let index = Index { row: number_index - 1, column: alpha_index };
        if index.is_valid(self.size) {
            Some(index)
        } else {
            None
        }
    }

    /// Finish the two-numbers form: both runs are already read, only
    /// trailing whitespace may remain.
    fn parse_pattern_number_number(&mut self, number: Vec<char>, second_number: Vec<char>) -> (r:
        Option<Index>)
        requires
            old(self).wf(),
            forall|k: int| 0 <= k < number@.len() ==> 48 <= (#[trigger] number@[k]) as u32 <= 57,
            second_number@.len() <= old(self).spec_pos(),
            forall|k: int|
                0 <= k < second_number@.len() ==> 48 <= (#[trigger] second_number@[k]) as u32 <= 57,
            forall|k: int|
                0 <= k < second_number@.len() ==> second_number@[k] == #[trigger] old(
                    self,
                ).text()[old(self).spec_pos() - second_number@.len() + k],
        ensures
            ({
                let sp = spec_parse_number_number(
                    old(self).spec_size(),
                    old(self).text(),
                    digits_val(number@),
                    old(self).spec_pos() - second_number@.len(),
                    old(self).spec_pos(),
                );
                match r {
                    Some(ix) => sp == Some(((ix.row as int), (ix.column as int))),
                    None => sp is None,
                }
            }),
    {
        let ghost s = old(self).text();
        let ghost d_end = old(self).spec_pos();
        let ghost i1 = d_end - second_number@.len();
        proof {
            lemma_digits_val_matches(s, i1, d_end, second_number@);
        }
        self.skip_whitespace();
        if !self.is_end() {
            return None;
        }
        let number_index = match number_to_index(&number) {
            Some(v) => v,
            None => {
                return None;
            },
        };
        if number_index == 0 {
            return None;
        }
        let second_number_index = match number_to_index(&second_number) {
            Some(v) => v,
            None => {
                return None;
            },
        };
        if second_number_index == 0 {
            return None;
        }
        let index = Index { row: second_number_index - 1, column: number_index - 1 };
        if index.is_valid(self.size) {
            Some(index)
        } else {
            None
        }
    }

    /// Finish the single-number form: a 1-indexed linear cell index.
    fn parse_pattern_number(&mut self, number: Vec<char>) -> (r: Option<Index>)
        requires
            old(self).wf(),
            forall|k: int| 0 <= k < number@.len() ==> 48 <= (#[trigger] number@[k]) as u32 <= 57,
        ensures
            ({
                let sp = if skip_ws_from(old(self).text(), old(self).spec_pos()) == old(
                    self,
                ).text().len() {
                    spec_parse_number(old(self).spec_size(), digits_val(number@))
                } else {
                    Option::<(int, int)>::None
                };
                match r {
                    Some(ix) => sp == Some(((ix.row as int), (ix.column as int))),
                    None => sp is None,
                }
            }),
    {
        let ghost size = old(self).spec_size();
        self.skip_whitespace();
        if !self.is_end() {
            return None;
        }
        let n = self.size;
        let number_index = match number_to_index(&number) {
            Some(v) => v,
            None => {
                proof {
                    lemma_linear_index_out_of_range(size, digits_val(number@));
                }
                return None;
            },
        };
        if number_index == 0 {
            proof {
                lemma_linear_index_of_zero(size);
            }
            return None;
        }
        if n == 0 {
            return None;
        }
        let linear = number_index - 1;
        let row = linear / n;
        let column = linear % n;
        let index = Index { row, column };
        if index.is_valid(self.size) {
            Some(index)
        } else {
            None
        }
    }

    /// Read a digit run; nothing when none starts here.
    fn read_number(&mut self) -> (r: Option<Vec<char>>)
        requires
            old(self).wf(),
        ensures
            final(self).wf(),
            final(self).text() == old(self).text(),
            final(self).spec_size() == old(self).spec_size(),
            ({
                let e = digit_end_from(old(self).text(), old(self).spec_pos());
                match r {
                    None => e == old(self).spec_pos() && final(self).spec_pos() == old(
                        self,
                    ).spec_pos(),
                    Some(v) => {
                        &&& e > old(self).spec_pos()
                        &&& final(self).spec_pos() == e
                        &&& v@.len() == e - old(self).spec_pos()
                        &&& forall|k: int|
                            0 <= k < v@.len() ==> v@[k] == #[trigger] old(self).text()[old(
                                self,
                            ).spec_pos() + k]
                        &&& forall|k: int| 0 <= k < v@.len() ==> 48 <= (#[trigger] v@[k]) as u32
                            <= 57
                    },
                }
            }),
    {
        let mut number: Vec<char> = Vec::new();
        while self.pos < self.chars.len() && is_digit(self.chars[self.pos])
            invariant
                self.wf(),
                self.text() == old(self).text(),
                self.spec_size() == old(self).spec_size(),
                old(self).spec_pos() <= self.spec_pos(),
                number@.len() == self.spec_pos() - old(self).spec_pos(),
                forall|k: int|
                    0 <= k < number@.len() ==> number@[k] == #[trigger] old(self).text()[old(
                        self,
                    ).spec_pos() + k],
                forall|k: int|
                    0 <= k < number@.len() ==> 48 <= (#[trigger] number@[k]) as u32 <= 57,
                digit_end_from(self.text(), self.spec_pos()) == digit_end_from(
                    old(self).text(),
                    old(self).spec_pos(),
                ),
            decreases self.text().len() - self.spec_pos(),
        {
            let c = self.chars[self.pos];
            number.push(c);
            self.pos = self.pos + 1;
        }
        if number.len() > 0 {
            Some(number)
        } else {
            None
        }
    }
}

} // verus!
