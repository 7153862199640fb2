//! Text as sequences of characters.
//!
//! Every rule the platform applies to text is stated here over `Seq<char>`: decimal
//! numbers, trimming, splitting into words, lines, and clauses, joining, searching, and
//! lexicographic order. The Unicode tables themselves stay with the standard library.

use vstd::prelude::*;

verus! {

broadcast use vstd::seq::group_seq_axioms;

/// Whether the standard library counts a character beyond ASCII as white space.
pub uninterp spec fn is_wide_space(c: char) -> bool;

/// Whether the standard library counts a character beyond ASCII as a letter or a digit.
pub uninterp spec fn is_wide_alphanumeric(c: char) -> bool;

/// What the standard library makes, in lower case, of a text that goes beyond ASCII.
pub uninterp spec fn wide_lowercase(s: Seq<char>) -> Seq<char>;

/// Whether a character is an ASCII one.
pub open spec fn is_ascii(c: char) -> bool {
    c <= '\u{7f}'
}

/// Whether every character of a text is an ASCII one.
pub open spec fn all_ascii(s: Seq<char>) -> bool {
    forall|i: int| 0 <= i < s.len() ==> is_ascii(#[trigger] s[i])
}

/// Whether a character is white space. Of the ASCII ones, the blank is, and the controls from
/// the tab to the carriage return.
pub open spec fn is_space(c: char) -> bool {
    if is_ascii(c) {
        c == ' ' || '\t' <= c <= '\r'
    } else {
        is_wide_space(c)
    }
}

/// Whether a character is a letter or a digit.
pub open spec fn is_alphanumeric(c: char) -> bool {
    if is_ascii(c) {
        is_ascii_alphanumeric(c)
    } else {
        is_wide_alphanumeric(c)
    }
}

/// A text in lower case. Where every character is an ASCII one, each is taken for itself.
pub open spec fn lowercase(s: Seq<char>) -> Seq<char> {
    if all_ascii(s) {
        ascii_lowercase(s)
    } else {
        wide_lowercase(s)
    }
}

/// `char::is_whitespace`: the Unicode `White_Space` property, a function of the character
/// alone. Among the ASCII characters the blank has it, and U+0009 to U+000D.
pub assume_specification[ char::is_whitespace ](c: char) -> (r: bool)
    ensures
        is_ascii(c) ==> r == is_space(c),
        !is_ascii(c) ==> r == is_wide_space(c),
;

/// `char::is_alphanumeric`: the Unicode `Alphabetic` or numeric properties, a function of
/// the character alone. Among the ASCII characters the letters and the digits have one.
pub assume_specification[ char::is_alphanumeric ](c: char) -> (r: bool)
    ensures
        is_ascii(c) ==> r == is_ascii_alphanumeric(c),
        !is_ascii(c) ==> r == is_wide_alphanumeric(c),
;

/// `str::to_lowercase`: the lower case form of a text, a function of the text alone. An ASCII
/// text has its capital letters replaced, one for one.
pub assume_specification[ str::to_lowercase ](s: &str) -> (r: String)
    ensures
        all_ascii(s@) ==> r@ == ascii_lowercase(s@),
        !all_ascii(s@) ==> r@ == wide_lowercase(s@),
;

/// `String::push` appends one character.
pub assume_specification[ String::push ](s: &mut String, c: char)
    ensures
        final(s)@ == old(s)@.push(c),
;

/// The texts behind a list of strings.
pub open spec fn views(v: Seq<String>) -> Seq<Seq<char>> {
    v.map_values(|s: String| s@)
}

/// The texts behind a list of character vectors.
pub open spec fn vec_views(v: Seq<Vec<char>>) -> Seq<Seq<char>> {
    v.map_values(|s: Vec<char>| s@)
}

/// The text behind an optional string.
pub open spec fn option_view(s: Option<String>) -> Option<Seq<char>> {
    match s {
        Some(text) => Some(text@),
        None => None,
    }
}

/// A copy of an optional string.
pub fn clone_option(s: &Option<String>) -> (r: Option<String>)
    ensures
        option_view(r) == option_view(*s),
{
    match s {
        Some(text) => Some(text.clone()),
        None => None,
    }
}

/// A copy of a list of strings.
pub fn clone_strings(v: &Vec<String>) -> (r: Vec<String>)
    ensures
        views(r@) == views(v@),
{
    let mut r: Vec<String> = Vec::new();
    for i in 0..v.len()
        invariant
            r@.len() == i,
            forall|k: int| 0 <= k < i ==> (#[trigger] r@[k])@ == v@[k]@,
    {
        r.push(v[i].clone());
    }
    assert(views(r@) =~= views(v@));
    r
}

/// Whether two texts are the same.
pub fn same_text(a: &str, b: &str) -> (r: bool)
    ensures
        r == (a@ == b@),
{
    let left = a.to_owned();
    let right = b.to_owned();
    left == right
}

/// The characters of a text.
pub fn chars_of(s: &str) -> (r: Vec<char>)
    ensures
        r@ == s@,
{
    let mut r: Vec<char> = Vec::new();
    for c in it: s.chars()
        invariant
            r@ == s@.take(it.index()),
            it.seq() == s@,
    {
        r.push(c);
    }
    r
}

/// The text made of the characters `from..to` of `chars`.
pub fn string_of_range(chars: &Vec<char>, from: usize, to: usize) -> (r: String)
    requires
        from <= to <= chars.len(),
    ensures
        r@ == chars@.subrange(from as int, to as int),
{
    let mut r = String::new();
    let mut i: usize = from;
    while i < to
        invariant
            from <= i <= to <= chars.len(),
            r@ == chars@.subrange(from as int, i as int),
        decreases to - i,
    {
        r.push(chars[i]);
        i += 1;
        assert(r@ =~= chars@.subrange(from as int, i as int));
    }
    r
}

/// The text made of `chars`.
pub fn string_of(chars: &Vec<char>) -> (r: String)
    ensures
        r@ == chars@,
{
    let r = string_of_range(chars, 0, chars.len());
    assert(chars@.subrange(0, chars@.len() as int) =~= chars@);
    r
}

// ---------------------------------------------------------------------------
// Numbers
// ---------------------------------------------------------------------------
/// The character of one decimal digit.
pub open spec fn digit_char(d: nat) -> char {
    (48 + d) as char
}

/// A number in decimal notation.
pub open spec fn decimal(n: nat) -> Seq<char>
    decreases n,
{
    if n < 10 {
        seq![digit_char(n)]
    } else {
        decimal(n / 10).push(digit_char(n % 10))
    }
}

/// A number in decimal notation.
pub fn decimal_text(n: u64) -> (r: String)
    ensures
        r@ == decimal(n as nat),
    decreases n,
{
    if n < 10 {
        let mut r = String::new();
        r.push((48u8 + n as u8) as char);
        assert(r@ =~= seq![digit_char(n as nat)]);
        r
    } else {
        let mut r = decimal_text(n / 10);
        r.push((48u8 + (n % 10) as u8) as char);
        r
    }
}

/// A decimal number has at least one digit, and digits only.
pub proof fn lemma_decimal_digits(n: nat)
    ensures
        decimal(n).len() > 0,
        forall|i: int| 0 <= i < decimal(n).len() ==> '0' <= #[trigger] decimal(n)[i] <= '9',
    decreases n,
{
    if n >= 10 {
        lemma_decimal_digits(n / 10);
    }
}

/// Different numbers have different decimal notations.
pub proof fn lemma_decimal_injective(a: nat, b: nat)
    requires
        decimal(a) == decimal(b),
    ensures
        a == b,
    decreases a,
{
    lemma_decimal_digits(a / 10);
    lemma_decimal_digits(b / 10);
    if a < 10 && b < 10 {
        assert(decimal(a)[0] == digit_char(a));
        assert(decimal(b)[0] == digit_char(b));
    } else if a >= 10 && b >= 10 {
        assert(decimal(a).last() == digit_char(a % 10));
        assert(decimal(b).last() == digit_char(b % 10));
        assert(decimal(a).drop_last() =~= decimal(a / 10));
        assert(decimal(b).drop_last() =~= decimal(b / 10));
        lemma_decimal_injective(a / 10, b / 10);
    } else if a < 10 {
        assert(decimal(a).len() == 1);
        assert(decimal(b).len() > 1);
    } else {
        assert(decimal(a).len() > 1);
        assert(decimal(b).len() == 1);
    }
}

/// The character of one lower case hexadecimal digit.
pub open spec fn hex_char(d: nat) -> char {
    if d < 10 {
        (48 + d) as char
    } else {
        (87 + d) as char
    }
}

/// The low `width` hexadecimal digits of a number, most significant first.
pub open spec fn hex_fixed(n: nat, width: nat) -> Seq<char>
    decreases width,
{
    if width == 0 {
        seq![]
    } else {
        hex_fixed(n / 16, (width - 1) as nat).push(hex_char(n % 16))
    }
}

/// The low `width` hexadecimal digits of a number, most significant first.
pub fn hex_fixed_text(n: u64, width: usize) -> (r: String)
    ensures
        r@ == hex_fixed(n as nat, width as nat),
    decreases width,
{
    if width == 0 {
        let r = String::new();
        assert(r@ =~= seq![]);
        r
    } else {
        let mut r = hex_fixed_text(n / 16, width - 1);
        let d: u8 = (n % 16) as u8;
        if d < 10 {
            r.push((48u8 + d) as char);
        } else {
            r.push((87u8 + d) as char);
        }
        r
    }
}

/// How many numbers so many hexadecimal digits tell apart.
pub open spec fn hex_range(width: nat) -> nat
    decreases width,
{
    if width == 0 {
        1
    } else {
        16 * hex_range((width - 1) as nat)
    }
}

/// Numbers within the range of the digits that have the same digits are the same.
pub proof fn lemma_hex_fixed_injective(a: nat, b: nat, width: nat)
    requires
        a < hex_range(width),
        b < hex_range(width),
        hex_fixed(a, width) == hex_fixed(b, width),
    ensures
        a == b,
    decreases width,
{
    if width > 0 {
        let fewer = (width - 1) as nat;
        assert(hex_fixed(a, width).last() == hex_char(a % 16));
        assert(hex_fixed(b, width).last() == hex_char(b % 16));
        assert(hex_fixed(a, width).drop_last() =~= hex_fixed(a / 16, fewer));
        assert(hex_fixed(b, width).drop_last() =~= hex_fixed(b / 16, fewer));
        lemma_hex_fixed_injective(a / 16, b / 16, fewer);
    }
}

/// A number in hexadecimal notation, without leading zeros.
pub open spec fn hex(n: nat) -> Seq<char>
    decreases n,
{
    if n < 16 {
        seq![hex_char(n)]
    } else {
        hex(n / 16).push(hex_char(n % 16))
    }
}

/// A number in hexadecimal notation, without leading zeros.
pub fn hex_text(n: u64) -> (r: String)
    ensures
        r@ == hex(n as nat),
    decreases n,
{
    let mut r = if n < 16 {
        String::new()
    } else {
        hex_text(n / 16)
    };
    let d: u8 = (n % 16) as u8;
    if d < 10 {
        r.push((48u8 + d) as char);
    } else {
        r.push((87u8 + d) as char);
    }
    assert(r@ =~= hex(n as nat));
    r
}

// ---------------------------------------------------------------------------
// ASCII
// ---------------------------------------------------------------------------
/// Whether a character is an ASCII letter or digit.
pub open spec fn is_ascii_alphanumeric(c: char) -> bool {
    ('0' <= c <= '9') || ('a' <= c <= 'z') || ('A' <= c <= 'Z')
}

/// A character with ASCII capitals made small.
pub open spec fn ascii_lower(c: char) -> char {
    if 'A' <= c <= 'Z' {
        (c as int + 32) as char
    } else {
        c
    }
}

/// A text with ASCII capitals made small.
pub open spec fn ascii_lowercase(s: Seq<char>) -> Seq<char> {
    s.map_values(|c: char| ascii_lower(c))
}

/// Whether a character is an ASCII letter or digit.
pub fn ascii_alphanumeric(c: char) -> (r: bool)
    ensures
        r == is_ascii_alphanumeric(c),
{
    ('0' <= c && c <= '9') || ('a' <= c && c <= 'z') || ('A' <= c && c <= 'Z')
}

/// A character with ASCII capitals made small.
pub fn to_ascii_lower(c: char) -> (r: char)
    ensures
        r == ascii_lower(c),
{
    if 'A' <= c && c <= 'Z' {
        ((c as u32 as u8) + 32u8) as char
    } else {
        c
    }
}

/// A text with ASCII capitals made small.
pub fn to_ascii_lowercase(s: &str) -> (r: String)
    ensures
        r@ == ascii_lowercase(s@),
{
    let chars = chars_of(s);
    let mut r = String::new();
    for i in 0..chars.len()
        invariant
            chars@ == s@,
            r@ =~= ascii_lowercase(s@.take(i as int)),
    {
        r.push(to_ascii_lower(chars[i]));
    }
    assert(s@.take(s@.len() as int) =~= s@);
    r
}

// ---------------------------------------------------------------------------
// Trimming
// ---------------------------------------------------------------------------
/// A text without its leading white space.
pub open spec fn trim_front(s: Seq<char>) -> Seq<char>
    decreases s.len(),
{
    if s.len() > 0 && is_space(s[0]) {
        trim_front(s.skip(1))
    } else {
        s
    }
}

/// A text without its trailing white space.
pub open spec fn trim_back(s: Seq<char>) -> Seq<char>
    decreases s.len(),
{
    if s.len() > 0 && is_space(s.last()) {
        trim_back(s.drop_last())
    } else {
        s
    }
}

/// A text without its leading and trailing white space.
pub open spec fn trimmed(s: Seq<char>) -> Seq<char> {
    trim_back(trim_front(s))
}

/// Whether a text holds nothing but white space.
pub open spec fn is_blank(s: Seq<char>) -> bool {
    forall|i: int| 0 <= i < s.len() ==> is_space(#[trigger] s[i])
}

/// A text trims to nothing exactly when it is blank.
pub proof fn lemma_blank_trims_to_nothing(s: Seq<char>)
    ensures
        trimmed(s).len() == 0 <==> is_blank(s),
{
    lemma_trim_front_blank(s);
    lemma_trim_back_blank(trim_front(s));
}

proof fn lemma_trim_front_blank(s: Seq<char>)
    ensures
        is_blank(trim_front(s)) <==> is_blank(s),
    decreases s.len(),
{
    if s.len() > 0 && is_space(s[0]) {
        let rest = s.skip(1);
        lemma_trim_front_blank(rest);
        assert(is_blank(rest) ==> is_blank(s)) by {
            if is_blank(rest) {
                assert forall|i: int| 0 <= i < s.len() implies is_space(#[trigger] s[i]) by {
                    if i > 0 {
                        assert(s[i] == rest[i - 1]);
                    }
                }
            }
        }
        assert(is_blank(s) ==> is_blank(rest)) by {
            if is_blank(s) {
                assert forall|i: int| 0 <= i < rest.len() implies is_space(#[trigger] rest[i]) by {
                    assert(rest[i] == s[i + 1]);
                }
            }
        }
    }
}

proof fn lemma_trim_back_blank(s: Seq<char>)
    ensures
        trim_back(s).len() == 0 <==> is_blank(s),
    decreases s.len(),
{
    if s.len() > 0 && is_space(s.last()) {
        let rest = s.drop_last();
        lemma_trim_back_blank(rest);
        assert(is_blank(rest) ==> is_blank(s)) by {
            if is_blank(rest) {
                assert forall|i: int| 0 <= i < s.len() implies is_space(#[trigger] s[i]) by {
                    if i < rest.len() {
                        assert(s[i] == rest[i]);
                    }
                }
            }
        }
        assert(is_blank(s) ==> is_blank(rest)) by {
            if is_blank(s) {
                assert forall|i: int| 0 <= i < rest.len() implies is_space(#[trigger] rest[i]) by {
                    assert(rest[i] == s[i]);
                }
            }
        }
    } else if s.len() > 0 {
        assert(!is_space(s[s.len() - 1]));
    }
}

/// A text without its leading and trailing white space.
pub fn trim(s: &str) -> (r: String)
    ensures
        r@ == trimmed(s@),
{
    let chars = chars_of(s);
    let r = trim_chars(&chars);
    string_of(&r)
}

/// A text without its leading and trailing white space.
pub fn trim_chars(chars: &Vec<char>) -> (r: Vec<char>)
    ensures
        r@ == trimmed(chars@),
{
    let mut from: usize = 0;
    assert(chars@.skip(0) =~= chars@);
    while from < chars.len() && chars[from].is_whitespace()
        invariant
            from <= chars.len(),
            trim_front(chars@) == trim_front(chars@.skip(from as int)),
        decreases chars.len() - from,
    {
        assert(chars@.skip(from as int).skip(1) =~= chars@.skip(from + 1));
        from += 1;
    }
    let ghost front = chars@.skip(from as int);
    assert(trim_front(chars@) == front);
    let mut to: usize = chars.len();
    assert(front.take((to - from) as int) =~= front);
    while to > from && chars[to - 1].is_whitespace()
        invariant
            from <= to <= chars.len(),
            front == chars@.skip(from as int),
            trim_back(front) == trim_back(front.take((to - from) as int)),
        decreases to,
    {
        assert(front.take((to - from) as int).drop_last() =~= front.take((to - from - 1) as int));
        assert(front.take((to - from) as int).last() == chars@[to - 1]);
        to -= 1;
    }
    let mut r: Vec<char> = Vec::new();
    let mut i: usize = from;
    while i < to
        invariant
            from <= i <= to <= chars.len(),
            r@ == chars@.subrange(from as int, i as int),
        decreases to - i,
    {
        r.push(chars[i]);
        i += 1;
        assert(r@ =~= chars@.subrange(from as int, i as int));
    }
    proof {
        let kept = front.take((to - from) as int);
        assert(kept =~= r@);
        if kept.len() > 0 {
            assert(kept.last() == chars@[to - 1]);
        }
        assert(trim_back(kept) == kept);
    }
    r
}

// ---------------------------------------------------------------------------
// Splitting
// ---------------------------------------------------------------------------
/// What separates the pieces of a text.
#[derive(Clone, Copy, Debug, PartialEq, Eq, Structural)]
pub enum Separator {
    /// White space, between words.
    Space,
    /// Anything but letters and digits, between significant words.
    Punctuation,
    /// A line break, semicolon, comma, or full stop, between clauses.
    Clause,
    /// A blank.
    Blank,
}

impl Separator {
    /// Whether `c` separates pieces.
    pub open spec fn splits(self, c: char) -> bool {
        match self {
            Separator::Space => is_space(c),
            Separator::Punctuation => !is_alphanumeric(c),
            Separator::Clause => c == '\n' || c == ';' || c == ',' || c == '.',
            Separator::Blank => c == ' ',
        }
    }

    /// Whether `c` separates pieces.
    pub fn is_separator(self, c: char) -> (r: bool)
        ensures
            r == self.splits(c),
    {
        match self {
            Separator::Space => c.is_whitespace(),
            Separator::Punctuation => !c.is_alphanumeric(),
            Separator::Clause => c == '\n' || c == ';' || c == ',' || c == '.',
            Separator::Blank => c == ' ',
        }
    }
}

/// The pieces between separators, where `current` is the piece being read.
pub open spec fn pieces_from(s: Seq<char>, current: Seq<char>, by: Separator) -> Seq<Seq<char>>
    decreases s.len(),
{
    if s.len() == 0 {
        seq![current]
    } else if by.splits(s[0]) {
        seq![current] + pieces_from(s.skip(1), seq![], by)
    } else {
        pieces_from(s.skip(1), current.push(s[0]), by)
    }
}

/// The pieces of a text between separators, the empty ones included.
pub open spec fn pieces(s: Seq<char>, by: Separator) -> Seq<Seq<char>> {
    pieces_from(s, seq![], by)
}

/// The pieces of a text between separators, the empty ones left out.
pub open spec fn solid_pieces(s: Seq<char>, by: Separator) -> Seq<Seq<char>> {
    pieces(s, by).filter(|piece: Seq<char>| piece.len() > 0)
}

/// The words of a text: its maximal runs without white space.
pub open spec fn words(s: Seq<char>) -> Seq<Seq<char>> {
    solid_pieces(s, Separator::Space)
}

/// Filtering a sequence that grew by one element.
pub proof fn lemma_filter_push<A>(s: Seq<A>, x: A, keep: spec_fn(A) -> bool)
    ensures
        s.push(x).filter(keep) == if keep(x) {
            s.filter(keep).push(x)
        } else {
            s.filter(keep)
        },
{
    reveal(Seq::filter);
    assert(s.push(x).drop_last() =~= s);
}

/// Mapping a sequence that grew by one element.
pub proof fn lemma_map_push<A, B>(s: Seq<A>, x: A, f: spec_fn(A) -> B)
    ensures
        s.push(x).map_values(f) == s.map_values(f).push(f(x)),
{
    assert(s.push(x).map_values(f) =~= s.map_values(f).push(f(x)));
}

/// The pieces of a text between separators, the empty ones included.
pub fn split_pieces(chars: &Vec<char>, by: Separator) -> (r: Vec<Vec<char>>)
    ensures
        vec_views(r@) == pieces(chars@, by),
{
    let mut r: Vec<Vec<char>> = Vec::new();
    let mut current: Vec<char> = Vec::new();
    let mut i: usize = 0;
    assert(chars@.skip(0) =~= chars@);
    assert(vec_views(r@) + pieces_from(chars@, current@, by) =~= pieces_from(chars@, current@, by));
    assert(current@ =~= seq![]);
    while i < chars.len()
        invariant
            i <= chars.len(),
            pieces(chars@, by) == vec_views(r@) + pieces_from(chars@.skip(i as int), current@, by),
        decreases chars.len() - i,
    {
        let ghost rest = chars@.skip(i as int);
        assert(rest.skip(1) =~= chars@.skip(i + 1));
        assert(rest[0] == chars@[i as int]);
        if by.is_separator(chars[i]) {
            let ghost before = r@;
            let ghost read = current@;
            r.push(current);
            current = Vec::new();
            proof {
                lemma_map_push(before, r@.last(), |v: Vec<char>| v@);
                assert(current@ =~= seq![]);
                assert(vec_views(before) + (seq![read] + pieces_from(rest.skip(1), seq![], by))
                    =~= vec_views(r@) + pieces_from(rest.skip(1), seq![], by));
            }
        } else {
            current.push(chars[i]);
        }
        i += 1;
    }
    let ghost before = r@;
    r.push(current);
    proof {
        assert(chars@.skip(i as int).len() == 0);
        lemma_map_push(before, r@.last(), |v: Vec<char>| v@);
        assert(vec_views(before) + seq![current@] =~= vec_views(r@));
    }
    r
}

/// The pieces of a text between separators, the empty ones left out.
pub fn split_solid(chars: &Vec<char>, by: Separator) -> (r: Vec<Vec<char>>)
    ensures
        vec_views(r@) == solid_pieces(chars@, by),
{
    let all = split_pieces(chars, by);
    let ghost keep = |piece: Seq<char>| piece.len() > 0;
    let mut r: Vec<Vec<char>> = Vec::new();
    assert(vec_views(all@).take(0).filter(keep) =~= seq![]) by {
        reveal(Seq::filter);
    }
    for i in 0..all.len()
        invariant
            keep == |piece: Seq<char>| piece.len() > 0,
            vec_views(r@) =~= vec_views(all@).take(i as int).filter(keep),
    {
        let ghost taken = vec_views(all@).take(i as int);
        proof {
            lemma_filter_push(taken, all@[i as int]@, keep);
            assert(vec_views(all@).take(i + 1) =~= taken.push(all@[i as int]@));
        }
        if all[i].len() > 0 {
            let ghost before = r@;
            let piece = copy_chars(&all[i]);
            r.push(piece);
            proof {
                lemma_map_push(before, r@.last(), |v: Vec<char>| v@);
            }
        }
    }
    assert(vec_views(all@).take(all@.len() as int) =~= vec_views(all@));
    r
}

/// A copy of a character vector.
pub fn copy_chars(chars: &Vec<char>) -> (r: Vec<char>)
    ensures
        r@ == chars@,
{
    let mut r: Vec<char> = Vec::new();
    for i in 0..chars.len()
        invariant
            r@ =~= chars@.take(i as int),
    {
        r.push(chars[i]);
    }
    r
}

/// The words of a text.
pub fn words_of(s: &str) -> (r: Vec<Vec<char>>)
    ensures
        vec_views(r@) == words(s@),
{
    let chars = chars_of(s);
    split_solid(&chars, Separator::Space)
}

/// How many words a text has.
pub fn word_count(s: &str) -> (r: usize)
    ensures
        r == words(s@).len(),
{
    let all = words_of(s);
    assert(vec_views(all@).len() == all@.len());
    all.len()
}

/// Texts joined by `separator`.
pub open spec fn joined(parts: Seq<Seq<char>>, separator: Seq<char>) -> Seq<char>
    decreases parts.len(),
{
    if parts.len() == 0 {
        seq![]
    } else if parts.len() == 1 {
        parts[0]
    } else {
        joined(parts.drop_last(), separator) + separator + parts.last()
    }
}

/// Texts joined by `separator`.
pub fn join(parts: &Vec<String>, separator: &str) -> (r: String)
    ensures
        r@ == joined(views(parts@), separator@),
{
    let mut r = String::new();
    assert(r@ =~= joined(views(parts@).take(0), separator@));
    for i in 0..parts.len()
        invariant
            r@ == joined(views(parts@).take(i as int), separator@),
    {
        let ghost taken = views(parts@).take(i + 1);
        assert(taken.drop_last() =~= views(parts@).take(i as int));
        if i == 0 {
            r = parts[i].clone();
        } else {
            r.append(separator);
            r.append(parts[i].as_str());
        }
        assert(r@ =~= joined(taken, separator@));
    }
    assert(views(parts@).take(parts@.len() as int) =~= views(parts@));
    r
}

/// The first `count` words of a text, joined by blanks.
pub open spec fn first_words(s: Seq<char>, count: nat) -> Seq<char> {
    joined(
        words(s).take(
            if count < words(s).len() {
                count as int
            } else {
                words(s).len() as int
            },
        ),
        seq![' '],
    )
}

/// The first `count` words of a text, joined by blanks.
pub fn shorten(text: &str, count: usize) -> (r: String)
    ensures
        r@ == first_words(text@, count as nat),
{
    let all = words_of(text);
    let n: usize = if count < all.len() {
        count
    } else {
        all.len()
    };
    let mut parts: Vec<String> = Vec::new();
    assert(all@.len() == words(text@).len());
    for i in 0..n
        invariant
            n <= all.len(),
            vec_views(all@) == words(text@),
            views(parts@) =~= words(text@).take(i as int),
    {
        let word = string_of(&all[i]);
        let ghost before = parts@;
        assert(words(text@)[i as int] == all@[i as int]@);
        parts.push(word);
        proof {
            lemma_map_push(before, word, |s: String| s@);
        }
    }
    let r = join(&parts, " ");
    proof {
        reveal_strlit(" ");
        assert(" "@ =~= seq![' ']);
    }
    r
}

// ---------------------------------------------------------------------------
// Lines
// ---------------------------------------------------------------------------
/// A line without the carriage return that belongs to its line ending.
pub open spec fn without_return(line: Seq<char>) -> Seq<char> {
    if line.len() > 0 && line.last() == '\r' {
        line.drop_last()
    } else {
        line
    }
}

/// The lines of a text, where `current` is the line being read.
pub open spec fn lines_from(s: Seq<char>, current: Seq<char>) -> Seq<Seq<char>>
    decreases s.len(),
{
    if s.len() == 0 {
        if current.len() == 0 {
            seq![]
        } else {
            seq![current]
        }
    } else if s[0] == '\n' {
        seq![without_return(current)] + lines_from(s.skip(1), seq![])
    } else {
        lines_from(s.skip(1), current.push(s[0]))
    }
}

/// The lines of a text. A line ends at a line feed, or at a carriage return followed by
/// one; the last ending may be missing.
pub open spec fn lines(s: Seq<char>) -> Seq<Seq<char>> {
    lines_from(s, seq![])
}

/// The lines of a text.
pub fn lines_of(s: &str) -> (r: Vec<Vec<char>>)
    ensures
        vec_views(r@) == lines(s@),
{
    let chars = chars_of(s);
    let mut r: Vec<Vec<char>> = Vec::new();
    let mut current: Vec<char> = Vec::new();
    let mut i: usize = 0;
    assert(chars@.skip(0) =~= chars@);
    assert(vec_views(r@) + lines_from(chars@, current@) =~= lines_from(chars@, current@));
    assert(current@ =~= seq![]);
    while i < chars.len()
        invariant
            i <= chars.len(),
            chars@ == s@,
            lines(chars@) == vec_views(r@) + lines_from(chars@.skip(i as int), current@),
        decreases chars.len() - i,
    {
        let ghost rest = chars@.skip(i as int);
        assert(rest.skip(1) =~= chars@.skip(i + 1));
        assert(rest[0] == chars@[i as int]);
        if chars[i] == '\n' {
            let ghost before = r@;
            let ghost read = current@;
            if current.len() > 0 && current[current.len() - 1] == '\r' {
                current.pop();
                assert(current@ =~= read.drop_last());
            }
            r.push(current);
            current = Vec::new();
            proof {
                lemma_map_push(before, r@.last(), |v: Vec<char>| v@);
                assert(current@ =~= seq![]);
                assert(vec_views(before) + (seq![without_return(read)] + lines_from(
                    rest.skip(1),
                    seq![],
                )) =~= vec_views(r@) + lines_from(rest.skip(1), seq![]));
            }
        } else {
            current.push(chars[i]);
        }
        i += 1;
    }
    assert(chars@.skip(i as int).len() == 0);
    if current.len() > 0 {
        let ghost before = r@;
        r.push(current);
        proof {
            lemma_map_push(before, r@.last(), |v: Vec<char>| v@);
            assert(vec_views(before) + seq![current@] =~= vec_views(r@));
        }
    } else {
        assert(vec_views(r@) + seq![] =~= vec_views(r@));
    }
    r
}

// ---------------------------------------------------------------------------
// Searching
// ---------------------------------------------------------------------------
/// Whether `prefix` stands at position `at` of `s`.
pub open spec fn stands_at(s: Seq<char>, prefix: Seq<char>, at: int) -> bool {
    0 <= at && at + prefix.len() <= s.len() && s.subrange(at, at + prefix.len()) == prefix
}

/// Whether a text begins with `prefix`.
pub open spec fn begins_with(s: Seq<char>, prefix: Seq<char>) -> bool {
    stands_at(s, prefix, 0)
}

/// Whether a text holds `needle`.
pub open spec fn holds(s: Seq<char>, needle: Seq<char>) -> bool {
    exists|at: int| #[trigger] stands_at(s, needle, at)
}

/// Whether `prefix` stands at position `at` of `s`.
pub fn matches_at(s: &Vec<char>, prefix: &Vec<char>, at: usize) -> (r: bool)
    requires
        at <= s.len(),
    ensures
        r == stands_at(s@, prefix@, at as int),
{
    if s.len() - at < prefix.len() {
        return false;
    }
    let mut i: usize = 0;
    while i < prefix.len()
        invariant
            i <= prefix.len(),
            at + prefix.len() <= s.len(),
            forall|k: int| 0 <= k < i ==> s@[at + k] == prefix@[k],
        decreases prefix.len() - i,
    {
        if s[at + i] != prefix[i] {
            assert(s@.subrange(at as int, at + prefix@.len())[i as int] != prefix@[i as int]);
            return false;
        }
        i += 1;
    }
    assert(s@.subrange(at as int, at + prefix@.len()) =~= prefix@);
    true
}

/// Whether a text begins with `prefix`.
pub fn starts_with(s: &str, prefix: &str) -> (r: bool)
    ensures
        r == begins_with(s@, prefix@),
{
    let chars = chars_of(s);
    let head = chars_of(prefix);
    matches_at(&chars, &head, 0)
}

/// Whether a text holds `needle`.
pub fn contains(s: &str, needle: &str) -> (r: bool)
    ensures
        r == holds(s@, needle@),
{
    let chars = chars_of(s);
    let wanted = chars_of(needle);
    let mut at: usize = 0;
    while at < chars.len()
        invariant
            at <= chars.len(),
            chars@ == s@,
            wanted@ == needle@,
            forall|k: int| 0 <= k < at ==> !#[trigger] stands_at(s@, needle@, k),
        decreases chars.len() - at,
    {
        if matches_at(&chars, &wanted, at) {
            return true;
        }
        at += 1;
    }
    matches_at(&chars, &wanted, at)
}

/// What follows `prefix`, when the text begins with it.
pub open spec fn after_prefix(s: Seq<char>, prefix: Seq<char>) -> Option<Seq<char>> {
    if begins_with(s, prefix) {
        Some(s.skip(prefix.len() as int))
    } else {
        None
    }
}

/// What follows `prefix`, when the text begins with it.
pub fn strip_prefix(s: &str, prefix: &str) -> (r: Option<String>)
    ensures
        option_view(r) == after_prefix(s@, prefix@),
{
    let chars = chars_of(s);
    let head = chars_of(prefix);
    if matches_at(&chars, &head, 0) {
        let rest = string_of_range(&chars, head.len(), chars.len());
        assert(rest@ =~= s@.skip(prefix@.len() as int));
        Some(rest)
    } else {
        None
    }
}

/// The pieces of a text between occurrences of `separator`, where `current` is the piece
/// being read.
pub open spec fn split_from(s: Seq<char>, current: Seq<char>, separator: Seq<char>) -> Seq<
    Seq<char>,
>
    decreases s.len(),
{
    if s.len() == 0 {
        seq![current]
    } else if separator.len() > 0 && begins_with(s, separator) {
        seq![current] + split_from(s.skip(separator.len() as int), seq![], separator)
    } else {
        split_from(s.skip(1), current.push(s[0]), separator)
    }
}

/// The pieces of a text between occurrences of `separator`, read from the left.
pub open spec fn split_on(s: Seq<char>, separator: Seq<char>) -> Seq<Seq<char>> {
    split_from(s, seq![], separator)
}

/// The pieces of a text between occurrences of `separator`, read from the left.
pub fn split_str(chars: &Vec<char>, separator: &str) -> (r: Vec<Vec<char>>)
    ensures
        vec_views(r@) == split_on(chars@, separator@),
        r@.len() > 0,
{
    let by = chars_of(separator);
    let mut r: Vec<Vec<char>> = Vec::new();
    let mut current: Vec<char> = Vec::new();
    let mut i: usize = 0;
    assert(chars@.skip(0) =~= chars@);
    assert(vec_views(r@) + split_from(chars@, current@, by@) =~= split_from(
        chars@,
        current@,
        by@,
    ));
    assert(current@ =~= seq![]);
    while i < chars.len()
        invariant
            i <= chars.len(),
            by@ == separator@,
            split_on(chars@, by@) == vec_views(r@) + split_from(
                chars@.skip(i as int),
                current@,
                by@,
            ),
        decreases chars.len() - i,
    {
        let ghost rest = chars@.skip(i as int);
        assert(rest[0] == chars@[i as int]);
        let found = by.len() > 0 && matches_at(chars, &by, i);
        proof {
            if by@.len() > 0 && i + by@.len() <= chars@.len() {
                assert(rest.subrange(0, by@.len() as int) =~= chars@.subrange(
                    i as int,
                    i + by@.len(),
                ));
            }
        }
        if found {
            let ghost before = r@;
            let ghost read = current@;
            r.push(current);
            current = Vec::new();
            proof {
                assert(rest.skip(by@.len() as int) =~= chars@.skip(i + by@.len()));
                lemma_map_push(before, r@.last(), |v: Vec<char>| v@);
                assert(current@ =~= seq![]);
                assert(vec_views(before) + (seq![read] + split_from(
                    rest.skip(by@.len() as int),
                    seq![],
                    by@,
                )) =~= vec_views(r@) + split_from(rest.skip(by@.len() as int), seq![], by@));
            }
            i += by.len();
        } else {
            assert(rest.skip(1) =~= chars@.skip(i + 1));
            current.push(chars[i]);
            i += 1;
        }
    }
    let ghost before = r@;
    r.push(current);
    proof {
        assert(chars@.skip(i as int).len() == 0);
        lemma_map_push(before, r@.last(), |v: Vec<char>| v@);
        assert(vec_views(before) + seq![current@] =~= vec_views(r@));
    }
    r
}

// ---------------------------------------------------------------------------
// Order
// ---------------------------------------------------------------------------
/// Lexicographic order of texts by code point: whether `a` comes strictly before `b`.
pub open spec fn text_before(a: Seq<char>, b: Seq<char>) -> bool
    decreases a.len(),
{
    if b.len() == 0 {
        false
    } else if a.len() == 0 {
        true
    } else if a[0] != b[0] {
        a[0] < b[0]
    } else {
        text_before(a.skip(1), b.skip(1))
    }
}

/// Whether `a` comes strictly before `b` in lexicographic order.
pub fn comes_before(a: &str, b: &str) -> (r: bool)
    ensures
        r == text_before(a@, b@),
{
    let left = chars_of(a);
    let right = chars_of(b);
    let mut i: usize = 0;
    assert(left@.skip(0) =~= left@);
    assert(right@.skip(0) =~= right@);
    while i < left.len() && i < right.len() && left[i] == right[i]
        invariant
            i <= left.len(),
            i <= right.len(),
            left@ == a@,
            right@ == b@,
            text_before(a@, b@) == text_before(left@.skip(i as int), right@.skip(i as int)),
        decreases left.len() - i,
    {
        assert(left@.skip(i as int).skip(1) =~= left@.skip(i + 1));
        assert(right@.skip(i as int).skip(1) =~= right@.skip(i + 1));
        i += 1;
    }
    if i >= right.len() {
        false
    } else if i >= left.len() {
        true
    } else {
        left[i] < right[i]
    }
}

/// Lexicographic order has no loops.
pub proof fn lemma_text_before_irreflexive(a: Seq<char>)
    ensures
        !text_before(a, a),
    decreases a.len(),
{
    if a.len() > 0 {
        lemma_text_before_irreflexive(a.skip(1));
    }
}

/// Lexicographic order is transitive.
pub proof fn lemma_text_before_transitive(a: Seq<char>, b: Seq<char>, c: Seq<char>)
    requires
        text_before(a, b),
        text_before(b, c),
    ensures
        text_before(a, c),
    decreases a.len(),
{
    if a.len() > 0 && b.len() > 0 && c.len() > 0 && a[0] == b[0] && b[0] == c[0] {
        lemma_text_before_transitive(a.skip(1), b.skip(1), c.skip(1));
    }
}

/// Of two different texts one comes before the other.
pub proof fn lemma_text_before_total(a: Seq<char>, b: Seq<char>)
    ensures
        a == b || text_before(a, b) || text_before(b, a),
    decreases a.len(),
{
    if a.len() == 0 && b.len() == 0 {
        assert(a =~= b);
    } else if a.len() > 0 && b.len() > 0 && a[0] == b[0] {
        lemma_text_before_total(a.skip(1), b.skip(1));
        if a.skip(1) == b.skip(1) {
            assert(a =~= seq![a[0]] + a.skip(1));
            assert(b =~= seq![b[0]] + b.skip(1));
        }
    }
}

/// The first `count` characters of a text.
pub open spec fn first_chars(s: Seq<char>, count: nat) -> Seq<char> {
    if s.len() <= count {
        s
    } else {
        s.take(count as int)
    }
}

/// The first `count` characters of a text.
pub fn take_chars(s: &str, count: usize) -> (r: String)
    ensures
        r@ == first_chars(s@, count as nat),
{
    let chars = chars_of(s);
    if chars.len() <= count {
        string_of(&chars)
    } else {
        let r = string_of_range(&chars, 0, count);
        assert(r@ =~= s@.take(count as int));
        r
    }
}

/// Whether a list holds a text.
pub fn has_text(list: &[String], text: &str) -> (r: bool)
    ensures
        r == views(list@).contains(text@),
{
    for i in 0..list.len()
        invariant
            forall|k: int| 0 <= k < i ==> (#[trigger] list@[k])@ != text@,
    {
        if same_text(list[i].as_str(), text) {
            assert(views(list@)[i as int] == text@);
            return true;
        }
    }
    assert forall|k: int| 0 <= k < views(list@).len() implies views(list@)[k] != text@ by {
        assert(list@[k]@ != text@);
    }
    false
}

/// A text holds what stands between two others.
pub proof fn lemma_holds_between(before: Seq<char>, piece: Seq<char>, after: Seq<char>)
    ensures
        holds(before + piece + after, piece),
{
    let all = before + piece + after;
    assert(all.subrange(before.len() as int, (before.len() + piece.len()) as int) =~= piece);
    assert(stands_at(all, piece, before.len() as int));
}

/// A text holds whatever a part of it holds.
pub proof fn lemma_holds_within(before: Seq<char>, part: Seq<char>, after: Seq<char>, piece: Seq<char>)
    requires
        holds(part, piece),
    ensures
        holds(before + part + after, piece),
{
    let all = before + part + after;
    let at = choose|at: int| #[trigger] stands_at(part, piece, at);
    assert(all.subrange(before.len() + at, before.len() + at + piece.len()) =~= part.subrange(
        at,
        at + piece.len(),
    ));
    assert(stands_at(all, piece, before.len() + at));
}

/// Joined texts hold each of the texts.
pub proof fn law_joined_texts_hold_each(parts: Seq<Seq<char>>, separator: Seq<char>, i: int)
    requires
        0 <= i < parts.len(),
    ensures
        holds(joined(parts, separator), parts[i]),
    decreases parts.len(),
{
    let all = joined(parts, separator);
    let none: Seq<char> = seq![];
    if parts.len() == 1 {
        lemma_holds_between(none, parts[0], none);
        assert(none + parts[0] + none =~= all);
    } else {
        let front = parts.drop_last();
        if i < front.len() {
            assert(front[i] == parts[i]);
            law_joined_texts_hold_each(front, separator, i);
            lemma_holds_within(none, joined(front, separator), separator + parts.last(), parts[i]);
            assert(none + joined(front, separator) + (separator + parts.last()) =~= all);
        } else {
            lemma_holds_between(joined(front, separator) + separator, parts.last(), none);
            assert(joined(front, separator) + separator + parts.last() + none =~= all);
        }
    }
}

/// What stands between the same texts in equal texts is the same.
pub proof fn lemma_same_between(
    before: Seq<char>,
    one: Seq<char>,
    other: Seq<char>,
    after: Seq<char>,
)
    requires
        before + one + after == before + other + after,
    ensures
        one == other,
{
    let left = before + one + after;
    let right = before + other + after;
    assert(left.len() == right.len());
    assert forall|k: int| 0 <= k < one.len() implies one[k] == other[k] by {
        assert(left[before.len() + k] == one[k]);
        assert(right[before.len() + k] == other[k]);
    }
    assert(one =~= other);
}

/// A text holds what it ends with.
pub proof fn lemma_holds_end(before: Seq<char>, piece: Seq<char>)
    ensures
        holds(before + piece, piece),
{
    let none: Seq<char> = seq![];
    lemma_holds_between(before, piece, none);
    assert(before + piece + none =~= before + piece);
}

/// A text holds whatever its beginning holds.
pub proof fn lemma_holds_longer(before: Seq<char>, after: Seq<char>, piece: Seq<char>)
    requires
        holds(before, piece),
    ensures
        holds(before + after, piece),
{
    let none: Seq<char> = seq![];
    lemma_holds_within(none, before, after, piece);
    assert(none + before + after =~= before + after);
}

/// A text holds whatever its end holds.
pub proof fn lemma_holds_later(before: Seq<char>, after: Seq<char>, piece: Seq<char>)
    requires
        holds(after, piece),
    ensures
        holds(before + after, piece),
{
    let none: Seq<char> = seq![];
    lemma_holds_within(before, after, none, piece);
    assert(before + after + none =~= before + after);
}

/// The number that some decimal digits write.
pub open spec fn number_of(digits: Seq<char>) -> int
    decreases digits.len(),
{
    if digits.len() == 0 {
        0
    } else {
        10 * number_of(digits.drop_last()) + (digits.last() as int - '0' as int)
    }
}

/// A number written in decimal reads back as itself, in digits only and without a leading zero.
pub proof fn law_decimals_read_back(n: nat)
    ensures
        number_of(decimal(n)) == n,
        decimal(n).len() > 0,
        forall|i: int| 0 <= i < decimal(n).len() ==> '0' <= #[trigger] decimal(n)[i] <= '9',
        n > 0 ==> decimal(n)[0] != '0',
    decreases n,
{
    reveal_with_fuel(number_of, 2);
    if n < 10 {
        assert(decimal(n).drop_last() =~= seq![]);
    } else {
        law_decimals_read_back(n / 10);
        assert(decimal(n).drop_last() =~= decimal(n / 10));
        assert(decimal(n)[0] == decimal(n / 10)[0]);
    }
}

/// The number that some hexadecimal digits write.
pub open spec fn hex_number_of(digits: Seq<char>) -> int
    decreases digits.len(),
{
    if digits.len() == 0 {
        0
    } else {
        16 * hex_number_of(digits.drop_last()) + if digits.last() <= '9' {
            digits.last() as int - '0' as int
        } else {
            digits.last() as int - 'a' as int + 10
        }
    }
}

/// A number written in hexadecimal reads back as itself; so does one written to a width that has
/// room for it, and it takes just that width.
pub proof fn law_hexadecimals_read_back(n: nat, width: nat)
    ensures
        hex_number_of(hex(n)) == n,
        hex_fixed(n, width).len() == width,
        n < hex_range(width) ==> hex_number_of(hex_fixed(n, width)) == n,
    decreases n + width,
{
    reveal_with_fuel(hex_number_of, 2);
    if n < 16 {
        assert(hex(n).drop_last() =~= seq![]);
    } else {
        law_hexadecimals_read_back(n / 16, 0);
        assert(hex(n).drop_last() =~= hex(n / 16));
    }
    if width > 0 {
        law_hexadecimals_read_back(n / 16, (width - 1) as nat);
        assert(hex_fixed(n, width).drop_last() =~= hex_fixed(n / 16, (width - 1) as nat));
    }
}

/// Where a text trimmed in front begins in it.
proof fn lemma_trim_front_at(s: Seq<char>) -> (at: int)
    ensures
        0 <= at <= s.len(),
        trim_front(s) == s.skip(at),
        forall|i: int| 0 <= i < at ==> is_space(#[trigger] s[i]),
        at < s.len() ==> !is_space(s[at]),
    decreases s.len(),
{
    if s.len() > 0 && is_space(s[0]) {
        let at = lemma_trim_front_at(s.skip(1));
        assert(s.skip(1).skip(at) =~= s.skip(at + 1));
        assert forall|i: int| 0 <= i < at + 1 implies is_space(#[trigger] s[i]) by {
            if i > 0 {
                assert(s.skip(1)[i - 1] == s[i]);
            }
        }
        at + 1
    } else {
        assert(s.skip(0) =~= s);
        0
    }
}

/// Where a text trimmed at the back ends in it.
proof fn lemma_trim_back_at(s: Seq<char>) -> (at: int)
    ensures
        0 <= at <= s.len(),
        trim_back(s) == s.take(at),
        forall|i: int| at <= i < s.len() ==> is_space(#[trigger] s[i]),
        at > 0 ==> !is_space(s[at - 1]),
    decreases s.len(),
{
    if s.len() > 0 && is_space(s.last()) {
        let at = lemma_trim_back_at(s.drop_last());
        assert(s.drop_last().take(at) =~= s.take(at));
        assert forall|i: int| at <= i < s.len() implies is_space(#[trigger] s[i]) by {
            if i < s.len() - 1 {
                assert(s.drop_last()[i] == s[i]);
            }
        }
        at
    } else {
        assert(s.take(s.len() as int) =~= s);
        s.len() as int
    }
}

/// Trimming takes white space off both ends of a text and nothing else: what is left is the
/// stretch that is given, and begins and ends with something else.
pub proof fn law_trimming_takes_only_the_ends(s: Seq<char>) -> (r: (int, int))
    ensures
        0 <= r.0 <= r.1 <= s.len(),
        trimmed(s) == s.subrange(r.0, r.1),
        forall|i: int| 0 <= i < r.0 ==> is_space(#[trigger] s[i]),
        forall|i: int| r.1 <= i < s.len() ==> is_space(#[trigger] s[i]),
        r.0 < r.1 ==> !is_space(s[r.0]) && !is_space(s[r.1 - 1]),
{
    let from = lemma_trim_front_at(s);
    let rest = s.skip(from);
    let to = lemma_trim_back_at(rest);
    assert(rest.take(to) =~= s.subrange(from, from + to));
    assert forall|i: int| from + to <= i < s.len() implies is_space(#[trigger] s[i]) by {
        assert(rest[i - from] == s[i]);
    }
    if to > 0 {
        assert(rest[to - 1] == s[from + to - 1]);
    }
    (from, from + to)
}

/// No piece of a text holds what it was split by.
pub proof fn law_pieces_hold_no_separator(
    s: Seq<char>,
    current: Seq<char>,
    by: Separator,
    k: int,
    i: int,
)
    requires
        forall|n: int| 0 <= n < current.len() ==> !by.splits(#[trigger] current[n]),
        0 <= k < pieces_from(s, current, by).len(),
        0 <= i < pieces_from(s, current, by)[k].len(),
    ensures
        !by.splits(pieces_from(s, current, by)[k][i]),
    decreases s.len(),
{
    if s.len() == 0 {
        assert(pieces_from(s, current, by)[k] == current);
    } else if by.splits(s[0]) {
        let none: Seq<char> = seq![];
        let rest = pieces_from(s.skip(1), none, by);
        if k > 0 {
            assert(pieces_from(s, current, by)[k] == rest[k - 1]);
            law_pieces_hold_no_separator(s.skip(1), none, by, k - 1, i);
        } else {
            assert(pieces_from(s, current, by)[k] == current);
        }
    } else {
        law_pieces_hold_no_separator(s.skip(1), current.push(s[0]), by, k, i);
    }
}

/// There is one piece more than there are separators, and the pieces hold every other character.
pub proof fn law_splitting_loses_only_separators(s: Seq<char>, current: Seq<char>, by: Separator)
    ensures
        pieces_from(s, current, by).len() == 1 + s.filter(|c: char| by.splits(c)).len(),
        total_length(pieces_from(s, current, by)) + s.filter(|c: char| by.splits(c)).len()
            == current.len() + s.len(),
    decreases s.len(),
{
    let split = |c: char| by.splits(c);
    if s.len() == 0 {
        reveal(Seq::filter);
        reveal_with_fuel(total_length, 2);
        assert(seq![current].skip(1) =~= seq![]);
    } else {
        let one = seq![s[0]];
        assert(s =~= one + s.skip(1));
        Seq::filter_distributes_over_add(one, s.skip(1), split);
        reveal_with_fuel(Seq::filter, 2);
        assert(one.drop_last() =~= seq![]);
        if by.splits(s[0]) {
            let rest = pieces_from(s.skip(1), seq![], by);
            law_splitting_loses_only_separators(s.skip(1), seq![], by);
            assert((seq![current] + rest).skip(1) =~= rest);
        } else {
            law_splitting_loses_only_separators(s.skip(1), current.push(s[0]), by);
        }
    }
}

/// How many characters some texts have between them.
pub open spec fn total_length(parts: Seq<Seq<char>>) -> nat
    decreases parts.len(),
{
    if parts.len() == 0 {
        0
    } else {
        parts[0].len() + total_length(parts.skip(1))
    }
}

/// Lower case leaves no capital letter, keeps every other character, and changes nothing twice.
pub proof fn law_lower_case_has_no_capitals(s: Seq<char>)
    ensures
        ascii_lowercase(s).len() == s.len(),
        forall|i: int|
            0 <= i < s.len() ==> !('A' <= #[trigger] ascii_lowercase(s)[i] <= 'Z'),
        forall|i: int|
            0 <= i < s.len() && !('A' <= #[trigger] s[i] <= 'Z') ==> ascii_lowercase(s)[i] == s[i],
        ascii_lowercase(ascii_lowercase(s)) == ascii_lowercase(s),
{
    assert(ascii_lowercase(ascii_lowercase(s)) =~= ascii_lowercase(s));
}

/// The first characters of a text are as many as there are, up to the number asked for, and are
/// those that the text begins with.
pub proof fn law_excerpts_come_from_the_front(s: Seq<char>, count: nat)
    ensures
        first_chars(s, count).len() == if s.len() < count {
            s.len()
        } else {
            count
        },
        begins_with(s, first_chars(s, count)),
{
    assert(s.subrange(0, first_chars(s, count).len() as int) =~= first_chars(s, count));
}

} // verus!
