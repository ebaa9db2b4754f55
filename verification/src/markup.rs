//! Handing markup to the text layout.
//!
//! The layout does not come to an end, or panics, on some markup.
//!
//! - It splits a word that is wider than its line by the widths of its characters, but measures
//!   what is left of the word as a whole. An emoji selector can make that wider than its
//!   characters, and then no part of it is ever taken. Words that are not split are safe. So a word
//!   with a selector is handed over where it is no wider than its line. In a table a line may be as
//!   narrow as its widest character: there it is handed over where it is a single character, where
//!   the selector comes behind its first character, which the first line takes, or where the table
//!   is no wider than a line. Elsewhere another character of no width stands in for the selector,
//!   and the selector is put back in the text that comes out.
//! - It looks for a tab stop for ever where a line has no column. A line has one wherever its text
//!   has any width, so tabs are handed over where no text is made of characters without width
//!   alone; elsewhere a space stands in for the tab.
//! - It adds up spanned columns and list numbers without a check. Markup whose sums may be out of
//!   range is not handed over at all.

use vstd::prelude::*;
use crate::chars;
use crate::strings;

verus! {

/// The character that asks for the picture of the character before it, which may be a column
/// wider.
pub const EMOJI_SELECTOR: char = '\u{fe0f}';

/// The mark around a character that makes a key cap of it; it has no width.
pub const KEY_CAP: char = '\u{20e3}';

/// The widest lines that are laid out.
pub const MAX_WIDTH: usize = 1000;

/// The columns that a numbered list takes at most from its items; the marks around a link take no
/// more.
pub const NUMBER_COLUMNS: usize = 24;

/// The columns that a bullet list, a quotation or a heading takes at most.
pub const PREFIX_COLUMNS: usize = 6;

/// The greatest number that a list may start with.
pub const MAX_START: u128 = 1_000_000_000_000_000_000;

/// How many cells there may be where cells span columns.
pub const MAX_CELLS: usize = 50_000;

/// No number of a text counts for more.
pub const MAX_NUMBER: u128 = 100_000_000_000_000_000_000_000;

/// No word counts as wider, nor as longer.
pub const MAX_COLUMNS: usize = 10_000;

/// A part of a markup text: a character, or a tag without its brackets.
#[derive(Debug, Clone)]
pub enum Token {
    Char(char),
    Tag(String),
}

/// What a part of a markup text is.
#[verifier::ext_equal]
pub enum TokenView {
    Char(char),
    Tag(Seq<char>),
}

impl View for Token {
    type V = TokenView;

    open spec fn view(&self) -> TokenView {
        match self {
            Token::Char(c) => TokenView::Char(*c),
            Token::Tag(tag) => TokenView::Tag(tag@),
        }
    }
}

/// What the parts of a markup text are.
pub open spec fn token_views(v: Seq<Token>) -> Seq<TokenView> {
    Seq::new(v.len(), |i: int| v[i]@)
}

/// How many characters a text has before its first `>`.
pub open spec fn before_close(h: Seq<char>) -> nat
    decreases h.len(),
{
    if h.len() == 0 || h[0] == '>' {
        0
    } else {
        1 + before_close(h.skip(1))
    }
}

/// How many characters the first part of a markup text has.
pub open spec fn token_len(h: Seq<char>) -> nat {
    if h[0] == '<' && before_close(h) < h.len() {
        before_close(h) + 1
    } else if h[0] == '<' {
        h.len()
    } else {
        1
    }
}

/// The first part of a markup text.
pub open spec fn first_token(h: Seq<char>) -> TokenView {
    if h[0] == '<' {
        TokenView::Tag(h.subrange(1, before_close(h) as int))
    } else {
        TokenView::Char(h[0])
    }
}

/// The parts of a markup text.
pub open spec fn tokens(h: Seq<char>) -> Seq<TokenView>
    decreases h.len(),
{
    if h.len() == 0 {
        Seq::empty()
    } else if 0 < token_len(h) <= h.len() {
        seq![first_token(h)] + tokens(h.skip(token_len(h) as int))
    } else {
        Seq::empty()
    }
}

proof fn lemma_before_close(h: Seq<char>)
    ensures
        before_close(h) <= h.len(),
        h.len() > 0 && h[0] == '<' ==> before_close(h) >= 1,
    decreases h.len(),
{
    if h.len() > 0 && h[0] != '>' {
        lemma_before_close(h.skip(1));
    }
}

/// The name that a tag starts with; that of an end tag starts with a slash.
pub open spec fn name_of(tag: Seq<char>) -> Seq<char>
    decreases tag.len(),
{
    if tag.len() == 0 || tag[0] == ' ' {
        Seq::empty()
    } else {
        seq![tag[0]] + name_of(tag.skip(1))
    }
}

/// Where in its markup a character stands.
#[derive(Clone, Copy, PartialEq, Eq, Structural)]
pub enum Place {
    Text,
    Open,
    Name,
    Close,
    CloseName,
    Attribute,
    AttributeName,
    Equals,
    Value,
    AfterValue,
    Broken,
}

/// The small letters and the digits.
pub open spec fn name_char(c: char) -> bool {
    'a' <= c <= 'z' || chars::ascii_digit(c)
}

/// The place behind a character: tags are a name and attributes, each behind one space and with
/// its value in double quotes, and no bracket stands but around a tag.
pub open spec fn next_place(place: Place, c: char) -> Place {
    match place {
        Place::Text => if c == '<' {
            Place::Open
        } else if c == '>' {
            Place::Broken
        } else {
            Place::Text
        },
        Place::Open => if c == '/' {
            Place::Close
        } else if 'a' <= c <= 'z' {
            Place::Name
        } else {
            Place::Broken
        },
        Place::Name => if name_char(c) {
            Place::Name
        } else if c == ' ' {
            Place::Attribute
        } else if c == '>' {
            Place::Text
        } else {
            Place::Broken
        },
        Place::Close => if 'a' <= c <= 'z' {
            Place::CloseName
        } else {
            Place::Broken
        },
        Place::CloseName => if name_char(c) {
            Place::CloseName
        } else if c == '>' {
            Place::Text
        } else {
            Place::Broken
        },
        Place::Attribute => if 'a' <= c <= 'z' {
            Place::AttributeName
        } else {
            Place::Broken
        },
        Place::AttributeName => if name_char(c) || c == '-' || c == ':' || c == '_' {
            Place::AttributeName
        } else if c == '=' {
            Place::Equals
        } else {
            Place::Broken
        },
        Place::Equals => if c == '"' {
            Place::Value
        } else {
            Place::Broken
        },
        Place::Value => if c == '"' {
            Place::AfterValue
        } else if c == '<' || c == '>' {
            Place::Broken
        } else {
            Place::Value
        },
        Place::AfterValue => if c == ' ' {
            Place::Attribute
        } else if c == '>' {
            Place::Text
        } else {
            Place::Broken
        },
        Place::Broken => Place::Broken,
    }
}

/// The place behind a text.
pub open spec fn place_after(h: Seq<char>) -> Place
    decreases h.len(),
{
    if h.len() == 0 {
        Place::Text
    } else {
        next_place(place_after(h.drop_last()), h.last())
    }
}

/// Whether the tags are written plainly.
pub open spec fn plain_tags(h: Seq<char>) -> bool {
    place_after(h) == Place::Text
}

/// Whether every `&` starts one of the references with which markup escapes its own characters: no
/// digit, tab or emoji selector then stands in the text but as itself.
pub open spec fn plain_references(h: Seq<char>) -> bool {
    forall|i: int| 0 <= i < h.len() && #[trigger] h[i] == '&' ==> plain_reference(h.skip(i))
}

/// Whether a text starts with a reference to `&`, `<`, `>`, `"` or a space.
pub open spec fn plain_reference(s: Seq<char>) -> bool {
    ||| strings::starts_with(s, "&amp;"@)
    ||| strings::starts_with(s, "&lt;"@)
    ||| strings::starts_with(s, "&gt;"@)
    ||| strings::starts_with(s, "&quot;"@)
    ||| strings::starts_with(s, "&nbsp;"@)
}

/// What may stand between the name of an attribute and the digits of its value.
pub open spec fn filler(c: char) -> bool {
    chars::white_space(c) || c == '=' || c == '"' || c == '\'' || c == '+' || c == '-'
}

/// The value of a digit.
pub open spec fn digit_value(c: char) -> int {
    c as u32 - '0' as u32
}

/// A number with one digit more.
pub open spec fn one_digit_more(number: int, digit: int) -> int {
    if number * 10 + digit <= MAX_NUMBER {
        number * 10 + digit
    } else {
        MAX_NUMBER as int
    }
}

/// The number that `so_far` and the digits at the start of a text make.
pub open spec fn number_on(so_far: int, s: Seq<char>) -> int
    decreases s.len(),
{
    if s.len() > 0 && chars::ascii_digit(s[0]) {
        number_on(one_digit_more(so_far, digit_value(s[0])), s.skip(1))
    } else {
        so_far
    }
}

/// The number behind the filler at the start of a text, without its sign.
pub open spec fn number_behind(s: Seq<char>) -> int
    decreases s.len(),
{
    if s.len() > 0 && filler(s[0]) {
        number_behind(s.skip(1))
    } else {
        number_on(0, s)
    }
}

/// Whether a number, taken some times, is no greater than `most`, or by itself greater than what
/// can be read: then its attribute counts for nothing.
pub open spec fn number_fits(number: int, times: nat, most: int, greatest: int) -> bool {
    number * times <= most || number > greatest
}

/// Whether all numbers behind a name fit.
pub open spec fn numbers_fit(
    s: Seq<char>,
    name: Seq<char>,
    times: nat,
    most: int,
    greatest: int,
) -> bool {
    forall|i: int|
        0 <= i && i + name.len() <= s.len() && #[trigger] s.subrange(i, i + name.len()) == name
            ==> number_fits(number_behind(s.skip(i + name.len())), times, most, greatest)
}

/// Whether a part is the tag of a cell.
pub open spec fn is_cell(token: TokenView) -> bool {
    match token {
        TokenView::Tag(tag) => name_of(tag) == "td"@ || name_of(tag) == "th"@,
        TokenView::Char(_) => false,
    }
}

/// How many cells there are.
pub open spec fn cells(ts: Seq<TokenView>) -> nat
    decreases ts.len(),
{
    if ts.len() == 0 {
        0
    } else {
        cells(ts.drop_last()) + if is_cell(ts.last()) {
            1nat
        } else {
            0nat
        }
    }
}

/// Whether the number of a list in its tag fits, and the numbers of columns that a cell spans: as
/// many times as there are pairs of cells, the sum is still in range.
pub open spec fn tag_numbers_fit(tag: Seq<char>, cells: nat) -> bool {
    &&& name_of(tag) == "ol"@ ==> numbers_fit(tag, "start"@, 1, MAX_START as int, 1 + i64::MAX)
    &&& is_cell(TokenView::Tag(tag)) && strings::occurs("colspan"@, tag) ==> cells <= MAX_CELLS
        && numbers_fit(tag, "colspan"@, cells * cells, usize::MAX as int, usize::MAX as int)
}

/// Whether the numbers of all tags fit.
pub open spec fn all_numbers_fit(ts: Seq<TokenView>) -> bool {
    forall|i: int| 0 <= i < ts.len() ==> token_numbers_fit(#[trigger] ts[i], cells(ts))
}

/// Whether the numbers of a part fit.
pub open spec fn token_numbers_fit(token: TokenView, cells: nat) -> bool {
    match token {
        TokenView::Tag(tag) => tag_numbers_fit(tag, cells),
        TokenView::Char(_) => true,
    }
}

/// Whether a character is known to take a column.
pub open spec fn visible(c: char) -> bool {
    0x21 <= c as u32 <= 0x7e || 0xc0 <= c as u32 <= 0x24f || 0x391 <= c as u32 <= 0x3a1
        || 0x3b1 <= c as u32 <= 0x3c9 || 0x410 <= c as u32 <= 0x44f || 0x3041 <= c as u32 <= 0x3096
        || 0x30a1 <= c as u32 <= 0x30fa || 0x4e00 <= c as u32 <= 0x9fff || 0xac00 <= c as u32
        <= 0xd7a3
}

/// What is known behind some parts: whether the text behind the last tag has a character that is no
/// white space, and one that takes a column; and whether the texts before that one had the latter
/// wherever they had the former.
pub struct TextScan {
    pub any: bool,
    pub visible: bool,
    pub solid: bool,
}

/// What is known behind one part more.
pub open spec fn next_text(scan: TextScan, token: TokenView) -> TextScan {
    match token {
        TokenView::Char(c) => TextScan {
            any: scan.any || !chars::white_space(c),
            visible: scan.visible || visible(c),
            solid: scan.solid,
        },
        TokenView::Tag(_) => TextScan {
            any: false,
            visible: false,
            solid: scan.solid && (scan.any ==> scan.visible),
        },
    }
}

/// What is known behind all parts.
pub open spec fn texts_after(ts: Seq<TokenView>) -> TextScan
    decreases ts.len(),
{
    if ts.len() == 0 {
        TextScan { any: false, visible: false, solid: true }
    } else {
        next_text(texts_after(ts.drop_last()), ts.last())
    }
}

/// Whether every text between tags that has characters but white space has one that takes a
/// column.
pub open spec fn solid_texts(ts: Seq<TokenView>) -> bool {
    next_text(texts_after(ts), TokenView::Tag(Seq::empty())).solid
}

/// Whether tabs can be handed over: they are looked at in preformatted text alone.
pub open spec fn tabs_fit(h: Seq<char>) -> bool {
    h.contains('\t') && strings::occurs("<pre"@, h) ==> plain_tags(h) && solid_texts(tokens(h))
}

/// Whether no element occurs that leaves some of its text out, takes markup for text, or keeps an
/// end tag from closing what it closes: but for tables, text then keeps its order, the white space
/// behind a character of it ends a word, and the end tag of a list, a quotation or a heading closes
/// one that is open.
pub open spec fn only_flowing(h: Seq<char>) -> bool {
    &&& !strings::occurs("<dl"@, h)
    &&& !strings::occurs("<select"@, h)
    &&& !strings::occurs("<template"@, h)
    &&& !strings::occurs("<script"@, h)
    &&& !strings::occurs("<style"@, h)
    &&& !strings::occurs("<title"@, h)
    &&& !strings::occurs("<textarea"@, h)
    &&& !strings::occurs("<xmp"@, h)
    &&& !strings::occurs("<iframe"@, h)
    &&& !strings::occurs("<no"@, h)
    &&& !strings::occurs("<plaintext"@, h)
    &&& !strings::occurs("<svg"@, h)
    &&& !strings::occurs("<math"@, h)
    &&& !strings::occurs("<object"@, h)
    &&& !strings::occurs("<applet"@, h)
    &&& !strings::occurs("<marquee"@, h)
    &&& !strings::occurs("<tfoot"@, h)
}

/// The columns that a character adds to a word at most. Characters before the Hangul letters take
/// one at most. The picture of a character takes two: a selector adds one to a narrow character, or
/// where the character before it is not known.
pub open spec fn columns_of(c: char, behind_wide: bool) -> nat {
    if c == EMOJI_SELECTOR {
        if behind_wide {
            0
        } else {
            1
        }
    } else if (c as u32) < 0x1100 {
        1
    } else {
        2
    }
}

/// The sum of two counts, up to the greatest that counts.
pub open spec fn up_to_most(a: nat, b: nat) -> nat {
    if a + b <= MAX_COLUMNS {
        a + b
    } else {
        MAX_COLUMNS as nat
    }
}

/// Whether a tag is that of an image that is shown by a text of its own.
pub open spec fn shows_text(tag: Seq<char>) -> bool {
    (name_of(tag) == "img"@ || name_of(tag) == "image"@) && strings::occurs(" alt="@, tag)
}

/// The columns that the text of an image takes at most, with the brackets around it.
pub open spec fn own_columns(tag: Seq<char>) -> nat {
    if shows_text(tag) {
        up_to_most(tag.len(), tag.len())
    } else {
        0
    }
}

/// The columns that the marks on both sides of an element take at most: emphasis, code,
/// superscripts and links have marks.
pub open spec fn mark_columns(tag: Seq<char>) -> nat {
    let name = name_of(tag);
    if name == "a"@ {
        NUMBER_COLUMNS as nat
    } else if name == "strong"@ || name == "sup"@ {
        4
    } else if name == "i"@ || name == "em"@ || name == "ins"@ || name == "code"@ {
        2
    } else {
        0
    }
}

/// The columns that the marks of all elements take at most.
pub open spec fn all_marks(ts: Seq<TokenView>) -> nat
    decreases ts.len(),
{
    if ts.len() == 0 {
        0
    } else {
        match ts.last() {
            TokenView::Tag(tag) => up_to_most(all_marks(ts.drop_last()), mark_columns(tag)),
            TokenView::Char(_) => all_marks(ts.drop_last()),
        }
    }
}

/// The columns that a tag adds to a word at most. Where end tags are missing or cross, a tag may
/// end every element and, with the text behind it, start every one again.
pub open spec fn tag_columns(tag: Seq<char>, marks: nat) -> nat {
    up_to_most(up_to_most(marks, marks), own_columns(tag))
}

/// Whether a tag with a name occurs.
pub open spec fn has_tag(ts: Seq<TokenView>, name: Seq<char>) -> bool {
    exists|i: int| 0 <= i < ts.len() && is_tag(#[trigger] ts[i], name)
}

/// Whether a part is a tag with a name.
pub open spec fn is_tag(token: TokenView, name: Seq<char>) -> bool {
    match token {
        TokenView::Tag(tag) => name_of(tag) == name,
        TokenView::Char(_) => false,
    }
}

/// The lists, quotations and headings that are open at most.
#[verifier::ext_equal]
pub struct Nesting {
    pub numbered: nat,
    pub bullets: nat,
    pub quotes: nat,
    pub headings: nat,
}

/// Nothing open.
pub open spec fn no_nesting() -> Nesting {
    Nesting { numbered: 0, bullets: 0, quotes: 0, headings: 0 }
}

/// One less, if there is any.
pub open spec fn one_less(n: nat) -> nat {
    if n == 0 {
        0
    } else {
        (n - 1) as nat
    }
}

/// What is open at most behind a tag. In a text with tables, where an end tag may close nothing,
/// nothing is taken to be closed.
pub open spec fn nesting_after(n: Nesting, tag: Seq<char>, closing: bool) -> Nesting {
    let name = name_of(tag);
    if name == "ol"@ {
        Nesting { numbered: n.numbered + 1, ..n }
    } else if name == "ul"@ {
        Nesting { bullets: n.bullets + 1, ..n }
    } else if name == "blockquote"@ {
        Nesting { quotes: n.quotes + 1, ..n }
    } else if name == "h1"@ || name == "h2"@ || name == "h3"@ || name == "h4"@ {
        Nesting { headings: n.headings + 1, ..n }
    } else if closing && name == "/ol"@ {
        Nesting { numbered: one_less(n.numbered), ..n }
    } else if closing && name == "/ul"@ {
        Nesting { bullets: one_less(n.bullets), ..n }
    } else if closing && name == "/blockquote"@ {
        Nesting { quotes: one_less(n.quotes), ..n }
    } else if closing && (name == "/h1"@ || name == "/h2"@ || name == "/h3"@ || name == "/h4"@) {
        Nesting { headings: one_less(n.headings), ..n }
    } else {
        n
    }
}

/// The columns that open lists, quotations and headings take at most.
pub open spec fn indent(n: Nesting) -> int {
    NUMBER_COLUMNS * n.numbered + PREFIX_COLUMNS * (n.bullets + n.quotes + n.headings)
}

/// Where a text stands: outside of tables, between the cells of one, or in a cell.
#[derive(Clone, Copy, PartialEq, Eq, Structural)]
pub enum Zone {
    Flow,
    Rows,
    Cell,
}

/// What is asked of all words of a text.
pub struct WordRules {
    /// The columns of a line.
    pub room: int,
    /// Whether end tags close what is open.
    pub closing: bool,
    /// The columns that the marks of all elements take at most.
    pub marks: nat,
    /// Whether all of the text fits into a line: the columns of its tables are then as wide as
    /// their cells.
    pub short: bool,
}

/// What is known behind some parts of a text.
#[verifier::ext_equal]
pub struct WordScan {
    pub zone: Zone,
    pub nesting: Nesting,
    /// Whether the word goes on with the next character.
    pub in_word: bool,
    /// Whether the last part was a character that may take two columns.
    pub wide: bool,
    /// Whether no tag stands in the word.
    pub clean: bool,
    /// Whether the word starts with its cell.
    pub first: bool,
    /// Whether a selector stands behind more than one character of the word.
    pub late: bool,
    /// The columns that the word takes at most, with the marks within it.
    pub columns: nat,
    /// The characters of the word but for selectors and key caps.
    pub letters: nat,
    /// Whether a selector stands in the word.
    pub emoji: bool,
    /// The columns that what is open around the word takes at most.
    pub deepest: int,
    /// Whether every word with a selector was one that is not split.
    pub whole: bool,
}

/// What is known before a text.
pub open spec fn no_words() -> WordScan {
    WordScan {
        zone: Zone::Flow,
        nesting: no_nesting(),
        in_word: false,
        wide: false,
        clean: true,
        first: false,
        late: false,
        columns: 0,
        letters: 0,
        emoji: false,
        deepest: 0,
        whole: true,
    }
}

/// A new word behind the one before.
pub open spec fn word_start(scan: WordScan) -> WordScan {
    WordScan {
        in_word: false,
        wide: false,
        clean: true,
        first: false,
        late: false,
        columns: 0,
        letters: 0,
        emoji: false,
        deepest: indent(scan.nesting),
        ..scan
    }
}

/// Whether the layout of a word comes to an end: it has no selector; or it is no wider than its
/// line; or in a cell it is a single character and no marks stand around it, or one piece with its
/// selector behind its first character, or all of the text fits into a line without marks.
pub open spec fn is_whole(scan: WordScan, rules: WordRules) -> bool {
    ||| !scan.emoji
    ||| scan.zone != Zone::Cell && scan.columns + scan.deepest <= rules.room
    ||| scan.zone == Zone::Cell && scan.letters <= 1 && rules.marks == 0
    ||| scan.zone == Zone::Cell && scan.clean && !scan.late
    ||| scan.zone == Zone::Cell && rules.short && rules.marks == 0
}

/// Whether a word may end with its cell: no mark of an element that is still open comes behind it.
pub open spec fn may_end(scan: WordScan, rules: WordRules) -> bool {
    scan.zone == Zone::Cell && scan.emoji ==> rules.marks == 0 || scan.clean && scan.first
}

/// What is known with the word looked at.
pub open spec fn looked_at(scan: WordScan, rules: WordRules) -> WordScan {
    WordScan { whole: scan.whole && is_whole(scan, rules), ..scan }
}

/// The zone behind a tag, `None` where a table stands within another.
pub open spec fn zone_after(zone: Zone, tag: Seq<char>) -> Option<Zone> {
    let name = name_of(tag);
    if name == "table"@ {
        if zone == Zone::Flow {
            Some(Zone::Rows)
        } else {
            None
        }
    } else if zone == Zone::Flow || name == "/table"@ {
        Some(Zone::Flow)
    } else if name == "td"@ || name == "th"@ {
        Some(Zone::Cell)
    } else if name == "/td"@ || name == "/th"@ || name == "tr"@ || name == "/tr"@ || name
        == "thead"@ || name == "/thead"@ || name == "tbody"@ || name == "/tbody"@ || name
        == "caption"@ || name == "colgroup"@ || name == "col"@ {
        Some(Zone::Rows)
    } else {
        Some(zone)
    }
}

/// What is known behind a character. A word ends at the white space behind a character of it; white
/// space behind a tag may be all that the tag holds and then be left out. Between the cells of a
/// table no text may stand: it would be moved.
pub open spec fn after_char(scan: WordScan, c: char, rules: WordRules) -> WordScan {
    if scan.in_word && chars::white_space(c) {
        word_start(scan)
    } else {
        let text = !chars::white_space(c) && c != '\0';
        looked_at(
            WordScan {
                in_word: text,
                wide: c as u32 >= 0x1100,
                columns: up_to_most(scan.columns, columns_of(c, scan.wide)),
                letters: if text && c != EMOJI_SELECTOR && c != KEY_CAP {
                    up_to_most(scan.letters, 1)
                } else {
                    scan.letters
                },
                emoji: scan.emoji || c == EMOJI_SELECTOR,
                late: scan.late || c == EMOJI_SELECTOR && scan.letters > 1,
                whole: scan.whole && !(scan.zone == Zone::Rows && text),
                ..scan
            },
            rules,
        )
    }
}

/// What is known behind a tag. A cell starts a new word; other tags stand within words.
pub open spec fn after_tag(scan: WordScan, tag: Seq<char>, rules: WordRules) -> WordScan {
    let nesting = nesting_after(scan.nesting, tag, rules.closing);
    match zone_after(scan.zone, tag) {
        None => WordScan { whole: false, ..scan },
        Some(zone) => if zone == Zone::Cell && is_cell(TokenView::Tag(tag)) {
            WordScan {
                first: true,
                whole: scan.whole && may_end(scan, rules),
                ..word_start(WordScan { zone, nesting, ..scan })
            }
        } else {
            looked_at(
                WordScan {
                    zone,
                    nesting,
                    in_word: false,
                    wide: false,
                    clean: false,
                    columns: up_to_most(scan.columns, tag_columns(tag, rules.marks)),
                    letters: if shows_text(tag) {
                        up_to_most(scan.letters, 2)
                    } else {
                        scan.letters
                    },
                    emoji: scan.emoji || shows_text(tag) && tag.contains(EMOJI_SELECTOR),
                    deepest: if indent(nesting) > scan.deepest {
                        indent(nesting)
                    } else {
                        scan.deepest
                    },
                    whole: scan.whole && !(zone == Zone::Rows && shows_text(tag)) && (zone
                        != Zone::Cell ==> may_end(scan, rules)),
                    ..scan
                },
                rules,
            )
        },
    }
}

/// What is known behind some parts of a text.
pub open spec fn scanned(ts: Seq<TokenView>, rules: WordRules) -> WordScan
    decreases ts.len(),
{
    if ts.len() == 0 {
        no_words()
    } else {
        let scan = scanned(ts.drop_last(), rules);
        match ts.last() {
            TokenView::Char(c) => after_char(scan, c, rules),
            TokenView::Tag(tag) => after_tag(scan, tag, rules),
        }
    }
}

/// The columns that a part takes at most, a tag with those of its list, quotation, heading or text.
pub open spec fn token_columns(token: TokenView) -> nat {
    match token {
        TokenView::Char(c) => columns_of(c, true),
        TokenView::Tag(tag) => up_to_most(
            (1 + indent(nesting_after(no_nesting(), tag, false))) as nat,
            own_columns(tag),
        ),
    }
}

/// The columns that all parts take at most.
pub open spec fn all_columns(ts: Seq<TokenView>) -> nat
    decreases ts.len(),
{
    if ts.len() == 0 {
        0
    } else {
        up_to_most(all_columns(ts.drop_last()), token_columns(ts.last()))
    }
}

/// What is asked of the words of a text in lines of a width.
pub open spec fn rules_for(ts: Seq<TokenView>, width: int) -> WordRules {
    WordRules {
        room: width,
        closing: !has_tag(ts, "table"@),
        marks: all_marks(ts),
        short: all_columns(ts) <= width,
    }
}

/// Whether no word with a selector is one that may be split.
pub open spec fn selectors_fit(h: Seq<char>, width: int) -> bool {
    h.contains(EMOJI_SELECTOR) ==> only_flowing(h) && plain_tags(h) && scanned(
        tokens(h),
        rules_for(tokens(h), width),
    ).whole
}

/// Whether some markup, its ASCII capitals lowered, can be laid out in lines of a width.
pub open spec fn lowered_fits(h: Seq<char>, width: int) -> bool {
    &&& 0 < width <= MAX_WIDTH
    &&& plain_references(h)
    &&& strings::occurs("start"@, h) || strings::occurs("colspan"@, h) ==> plain_tags(h)
        && all_numbers_fit(tokens(h))
    &&& tabs_fit(h)
    &&& selectors_fit(h, width)
}

/// A text with its ASCII capitals lowered.
pub open spec fn lowered(s: Seq<char>) -> Seq<char> {
    s.map_values(|c: char| chars::ascii_lower(c))
}

/// Whether some markup can be laid out in lines of a width.
pub open spec fn fits(html: Seq<char>, width: int) -> bool {
    lowered_fits(lowered(html), width)
}

fn is_name_char(c: char) -> (res: bool)
    ensures
        res == name_char(c),
{
    ('a' <= c && c <= 'z') || ('0' <= c && c <= '9')
}

fn place_behind(place: Place, c: char) -> (res: Place)
    ensures
        res == next_place(place, c),
{
    match place {
        Place::Text => if c == '<' {
            Place::Open
        } else if c == '>' {
            Place::Broken
        } else {
            Place::Text
        },
        Place::Open => if c == '/' {
            Place::Close
        } else if 'a' <= c && c <= 'z' {
            Place::Name
        } else {
            Place::Broken
        },
        Place::Name => if is_name_char(c) {
            Place::Name
        } else if c == ' ' {
            Place::Attribute
        } else if c == '>' {
            Place::Text
        } else {
            Place::Broken
        },
        Place::Close => if 'a' <= c && c <= 'z' {
            Place::CloseName
        } else {
            Place::Broken
        },
        Place::CloseName => if is_name_char(c) {
            Place::CloseName
        } else if c == '>' {
            Place::Text
        } else {
            Place::Broken
        },
        Place::Attribute => if 'a' <= c && c <= 'z' {
            Place::AttributeName
        } else {
            Place::Broken
        },
        Place::AttributeName => if is_name_char(c) || c == '-' || c == ':' || c == '_' {
            Place::AttributeName
        } else if c == '=' {
            Place::Equals
        } else {
            Place::Broken
        },
        Place::Equals => if c == '"' {
            Place::Value
        } else {
            Place::Broken
        },
        Place::Value => if c == '"' {
            Place::AfterValue
        } else if c == '<' || c == '>' {
            Place::Broken
        } else {
            Place::Value
        },
        Place::AfterValue => if c == ' ' {
            Place::Attribute
        } else if c == '>' {
            Place::Text
        } else {
            Place::Broken
        },
        Place::Broken => Place::Broken,
    }
}

fn has_plain_tags(h: &Vec<char>) -> (res: bool)
    ensures
        res == plain_tags(h@),
{
    let mut place = Place::Text;
    for i in 0..h.len()
        invariant
            place == place_after(h@.take(i as int)),
    {
        assert(h@.take(i + 1).drop_last() =~= h@.take(i as int));
        place = place_behind(place, h[i]);
    }
    assert(h@.take(h@.len() as int) =~= h@);
    place == Place::Text
}

fn find_close(h: &Vec<char>, from: usize) -> (res: usize)
    requires
        from <= h.len(),
    ensures
        from <= res <= h.len(),
        res == from + before_close(h@.skip(from as int)),
{
    let mut at: usize = from;
    while at < h.len() && h[at] != '>'
        invariant
            from <= at <= h.len(),
            from + before_close(h@.skip(from as int)) == at + before_close(h@.skip(at as int)),
        decreases h.len() - at,
    {
        assert(h@.skip(at as int).skip(1) =~= h@.skip(at + 1));
        at = at + 1;
    }
    at
}

fn push_token(ts: &mut Vec<Token>, token: Token)
    ensures
        token_views(final(ts)@) == token_views(old(ts)@).push(token@),
{
    ts.push(token);
    assert(token_views(ts@) =~= token_views(old(ts)@).push(token@));
}

/// The parts of a markup text.
fn split_tokens(h: &Vec<char>) -> (res: Vec<Token>)
    ensures
        token_views(res@) == tokens(h@),
{
    let mut res: Vec<Token> = Vec::new();
    let mut at: usize = 0;
    assert(h@.skip(0) =~= h@);
    assert(token_views(res@) + tokens(h@) =~= tokens(h@));
    while at < h.len()
        invariant
            at <= h.len(),
            token_views(res@) + tokens(h@.skip(at as int)) == tokens(h@),
        decreases h.len() - at,
    {
        let ghost rest = h@.skip(at as int);
        let ghost before = token_views(res@);
        proof {
            lemma_before_close(rest);
        }
        let (token, next): (Token, usize) = if h[at] == '<' {
            let close = find_close(h, at);
            let tag = strings::from_range(h, at + 1, close);
            assert(tag@ =~= rest.subrange(1, before_close(rest) as int));
            (
                Token::Tag(tag),
                if close < h.len() {
                    close + 1
                } else {
                    close
                },
            )
        } else {
            (Token::Char(h[at]), at + 1)
        };
        assert(token@ == first_token(rest));
        assert(rest.skip(token_len(rest) as int) =~= h@.skip(next as int));
        push_token(&mut res, token);
        assert(token_views(res@) =~= before.push(first_token(rest)));
        assert(token_views(res@) + tokens(h@.skip(next as int)) =~= before + tokens(rest));
        at = next;
    }
    assert(h@.skip(at as int) =~= Seq::<char>::empty());
    assert(token_views(res@) + Seq::<TokenView>::empty() =~= token_views(res@));
    res
}

/// The name that a tag starts with.
fn find_name(tag: &str) -> (res: String)
    ensures
        res@ == name_of(tag@),
{
    let t = strings::to_chars(tag);
    let mut res = String::new();
    let mut at: usize = 0;
    assert(t@.skip(0) =~= t@);
    assert(res@ + name_of(t@) =~= name_of(t@));
    while at < t.len() && t[at] != ' '
        invariant
            at <= t.len(),
            res@ + name_of(t@.skip(at as int)) == name_of(t@),
        decreases t.len() - at,
    {
        let ghost before = res@;
        assert(t@.skip(at as int).skip(1) =~= t@.skip(at + 1));
        res.push(t[at]);
        assert(res@ + name_of(t@.skip(at + 1)) =~= before + name_of(t@.skip(at as int)));
        at = at + 1;
    }
    assert(res@ + Seq::<char>::empty() =~= res@);
    res
}

/// Whether a text starts at a place of another.
fn starts_at(h: &Vec<char>, at: usize, needle: &str) -> (res: bool)
    requires
        at <= h.len(),
    ensures
        res == strings::starts_with(h@.skip(at as int), needle@),
{
    let n = strings::to_chars(needle);
    if n.len() > h.len() - at {
        return false;
    }
    assert(h@.skip(at as int).take(n@.len() as int) =~= h@.subrange(at as int, at + n@.len()));
    strings::matches_at(h, &n, at)
}

fn has_plain_references(h: &Vec<char>) -> (res: bool)
    ensures
        res == plain_references(h@),
{
    for i in 0..h.len()
        invariant
            forall|k: int| 0 <= k < i && #[trigger] h@[k] == '&' ==> plain_reference(h@.skip(k)),
    {
        if h[i] == '&' && !(starts_at(h, i, "&amp;") || starts_at(h, i, "&lt;") || starts_at(
            h,
            i,
            "&gt;",
        ) || starts_at(h, i, "&quot;") || starts_at(h, i, "&nbsp;")) {
            assert(h@[i as int] == '&' && !plain_reference(h@.skip(i as int)));
            return false;
        }
    }
    true
}

/// The number behind the filler at a place of a text.
fn read_number(h: &Vec<char>, from: usize) -> (res: u128)
    requires
        from <= h.len(),
    ensures
        res == number_behind(h@.skip(from as int)),
        res <= MAX_NUMBER,
{
    let mut at: usize = from;
    while at < h.len() && (h[at].is_whitespace() || h[at] == '=' || h[at] == '"' || h[at] == '\''
        || h[at] == '+' || h[at] == '-')
        invariant
            from <= at <= h.len(),
            number_behind(h@.skip(from as int)) == number_behind(h@.skip(at as int)),
        decreases h.len() - at,
    {
        assert(h@.skip(at as int)[0] == h@[at as int]);
        assert(h@.skip(at as int).skip(1) =~= h@.skip(at + 1));
        at = at + 1;
    }
    assert(at < h.len() ==> h@.skip(at as int)[0] == h@[at as int]);
    let mut number: u128 = 0;
    while at < h.len() && '0' <= h[at] && h[at] <= '9'
        invariant
            from <= at <= h.len(),
            0 <= number <= MAX_NUMBER,
            number_behind(h@.skip(from as int)) == number_on(
                number as int,
                h@.skip(at as int),
            ),
        decreases h.len() - at,
    {
        assert(h@.skip(at as int)[0] == h@[at as int]);
        assert(h@.skip(at as int).skip(1) =~= h@.skip(at + 1));
        let longer: u128 = number * 10 + (h[at] as u32 - '0' as u32) as u128;
        number = if longer <= MAX_NUMBER {
            longer
        } else {
            MAX_NUMBER
        };
        at = at + 1;
    }
    assert(at < h.len() ==> h@.skip(at as int)[0] == h@[at as int]);
    number
}

/// Whether all numbers behind a name fit.
fn do_numbers_fit(tag: &str, name: &str, times: u64, most: u128, greatest: u128) -> (res: bool)
    requires
        times <= MAX_CELLS * MAX_CELLS,
    ensures
        res == numbers_fit(tag@, name@, times as nat, most as int, greatest as int),
{
    let h = strings::to_chars(tag);
    let n = strings::to_chars(name);
    let mut at: usize = 0;
    while at < h.len() && n.len() <= h.len() - at
        invariant
            h@ == tag@,
            n@ == name@,
            at <= h.len(),
            times <= MAX_CELLS * MAX_CELLS,
            forall|i: int|
                0 <= i < at && i + name@.len() <= h@.len() && #[trigger] h@.subrange(
                    i,
                    i + name@.len(),
                ) == name@ ==> number_fits(
                    number_behind(h@.skip(i + name@.len())),
                    times as nat,
                    most as int,
                    greatest as int,
                ),
        decreases h.len() - at,
    {
        if strings::matches_at(&h, &n, at) {
            let number = read_number(&h, at + n.len());
            assert(number * times <= MAX_NUMBER * (MAX_CELLS * MAX_CELLS)) by (nonlinear_arith)
                requires
                    0 <= number <= MAX_NUMBER,
                    0 <= times <= MAX_CELLS * MAX_CELLS,
            ;
            if number * (times as u128) > most && number <= greatest {
                assert(h@.subrange(at as int, at + name@.len()) == name@);
                return false;
            }
        }
        at = at + 1;
    }
    proof {
        if at == h.len() {
            assert(number_behind(h@.skip(h@.len() as int)) == 0);
            assert(0 * times <= most);
        }
    }
    true
}

fn is_cell_tag(tag: &str) -> (res: bool)
    ensures
        res == is_cell(TokenView::Tag(tag@)),
{
    let name = find_name(tag);
    strings::same(name.as_str(), "td") || strings::same(name.as_str(), "th")
}

fn count_cells(ts: &Vec<Token>) -> (res: usize)
    ensures
        res == cells(token_views(ts@)),
{
    let ghost all = token_views(ts@);
    let mut res: usize = 0;
    for i in 0..ts.len()
        invariant
            all == token_views(ts@),
            res == cells(all.take(i as int)),
            res <= i,
    {
        assert(all.take(i + 1).drop_last() =~= all.take(i as int));
        match &ts[i] {
            Token::Char(_) => {},
            Token::Tag(tag) => {
                if is_cell_tag(tag.as_str()) {
                    res = res + 1;
                }
            },
        }
    }
    assert(all.take(all.len() as int) =~= all);
    res
}

fn do_tag_numbers_fit(tag: &str, cells: usize) -> (res: bool)
    ensures
        res == tag_numbers_fit(tag@, cells as nat),
{
    let name = find_name(tag);
    if strings::same(name.as_str(), "ol") && !do_numbers_fit(
        tag,
        "start",
        1,
        MAX_START,
        0x8000_0000_0000_0000,
    ) {
        return false;
    }
    if is_cell_tag(tag) && strings::contains_text(tag, "colspan") {
        if cells > MAX_CELLS {
            return false;
        }
        assert(cells * cells <= MAX_CELLS * MAX_CELLS) by (nonlinear_arith)
            requires
                0 <= cells <= MAX_CELLS,
        ;
        let pairs: u64 = (cells as u64) * (cells as u64);
        return do_numbers_fit(tag, "colspan", pairs, usize::MAX as u128, usize::MAX as u128);
    }
    true
}

fn do_all_numbers_fit(ts: &Vec<Token>) -> (res: bool)
    ensures
        res == all_numbers_fit(token_views(ts@)),
{
    let ghost all = token_views(ts@);
    let n = count_cells(ts);
    for i in 0..ts.len()
        invariant
            all == token_views(ts@),
            n == cells(all),
            forall|k: int| 0 <= k < i ==> token_numbers_fit(#[trigger] all[k], n as nat),
    {
        assert(all[i as int] == ts@[i as int]@);
        match &ts[i] {
            Token::Char(_) => {},
            Token::Tag(tag) => {
                if !do_tag_numbers_fit(tag.as_str(), n) {
                    assert(!token_numbers_fit(all[i as int], n as nat));
                    return false;
                }
            },
        }
    }
    true
}

fn is_visible(c: char) -> (res: bool)
    ensures
        res == visible(c),
{
    let u = c as u32;
    (0x21 <= u && u <= 0x7e) || (0xc0 <= u && u <= 0x24f) || (0x391 <= u && u <= 0x3a1) || (0x3b1
        <= u && u <= 0x3c9) || (0x410 <= u && u <= 0x44f) || (0x3041 <= u && u <= 0x3096) || (
    0x30a1 <= u && u <= 0x30fa) || (0x4e00 <= u && u <= 0x9fff) || (0xac00 <= u && u <= 0xd7a3)
}

fn has_solid_texts(ts: &Vec<Token>) -> (res: bool)
    ensures
        res == solid_texts(token_views(ts@)),
{
    let ghost all = token_views(ts@);
    let mut any = false;
    let mut seen = false;
    let mut solid = true;
    for i in 0..ts.len()
        invariant
            all == token_views(ts@),
            texts_after(all.take(i as int)) == (TextScan { any, visible: seen, solid }),
    {
        assert(all.take(i + 1).drop_last() =~= all.take(i as int));
        match &ts[i] {
            Token::Char(c) => {
                any = any || !c.is_whitespace();
                seen = seen || is_visible(*c);
            },
            Token::Tag(_) => {
                solid = solid && (!any || seen);
                any = false;
                seen = false;
            },
        }
    }
    assert(all.take(all.len() as int) =~= all);
    solid && (!any || seen)
}

fn has_char(h: &Vec<char>, c: char) -> (res: bool)
    ensures
        res == h@.contains(c),
{
    for i in 0..h.len()
        invariant
            forall|k: int| 0 <= k < i ==> h@[k] != c,
    {
        if h[i] == c {
            assert(h@[i as int] == c);
            return true;
        }
    }
    false
}


fn shows_own_text(tag: &str) -> (res: bool)
    ensures
        res == shows_text(tag@),
{
    let name = find_name(tag);
    (strings::same(name.as_str(), "img") || strings::same(name.as_str(), "image"))
        && strings::contains_text(tag, " alt=")
}

fn sum_up_to_most(a: usize, b: usize) -> (res: usize)
    ensures
        res == up_to_most(a as nat, b as nat),
        res <= MAX_COLUMNS,
{
    if a <= MAX_COLUMNS && b <= MAX_COLUMNS - a {
        a + b
    } else {
        MAX_COLUMNS
    }
}

fn count_own_columns(tag: &str) -> (res: usize)
    ensures
        res == own_columns(tag@),
        res <= MAX_COLUMNS,
{
    if shows_own_text(tag) {
        let t = strings::to_chars(tag);
        sum_up_to_most(t.len(), t.len())
    } else {
        0
    }
}

fn count_mark_columns(tag: &str) -> (res: usize)
    ensures
        res == mark_columns(tag@),
        res <= MAX_COLUMNS,
{
    let name = find_name(tag);
    let n = name.as_str();
    if strings::same(n, "a") {
        NUMBER_COLUMNS
    } else if strings::same(n, "strong") || strings::same(n, "sup") {
        4
    } else if strings::same(n, "i") || strings::same(n, "em") || strings::same(n, "ins")
        || strings::same(n, "code") {
        2
    } else {
        0
    }
}

fn count_all_marks(ts: &Vec<Token>) -> (res: usize)
    ensures
        res == all_marks(token_views(ts@)),
        res <= MAX_COLUMNS,
{
    let ghost all = token_views(ts@);
    let mut res: usize = 0;
    for i in 0..ts.len()
        invariant
            all == token_views(ts@),
            res == all_marks(all.take(i as int)),
            res <= MAX_COLUMNS,
    {
        assert(all.take(i + 1).drop_last() =~= all.take(i as int));
        assert(all.take(i + 1).last() == ts@[i as int]@);
        match &ts[i] {
            Token::Char(_) => {},
            Token::Tag(tag) => {
                res = sum_up_to_most(res, count_mark_columns(tag.as_str()));
            },
        }
    }
    assert(all.take(all.len() as int) =~= all);
    res
}

fn find_tag(ts: &Vec<Token>, name: &str) -> (res: bool)
    ensures
        res == has_tag(token_views(ts@), name@),
{
    let ghost all = token_views(ts@);
    for i in 0..ts.len()
        invariant
            all == token_views(ts@),
            forall|k: int| 0 <= k < i ==> !is_tag(#[trigger] all[k], name@),
    {
        assert(all[i as int] == ts@[i as int]@);
        match &ts[i] {
            Token::Char(_) => {},
            Token::Tag(tag) => {
                let own = find_name(tag.as_str());
                if strings::same(own.as_str(), name) {
                    assert(is_tag(all[i as int], name@));
                    return true;
                }
            },
        }
    }
    false
}

/// How many lists, quotations and headings are open at most.
#[derive(Clone, Copy)]
struct Depth {
    numbered: usize,
    bullets: usize,
    quotes: usize,
    headings: usize,
}

impl View for Depth {
    type V = Nesting;

    closed spec fn view(&self) -> Nesting {
        Nesting {
            numbered: self.numbered as nat,
            bullets: self.bullets as nat,
            quotes: self.quotes as nat,
            headings: self.headings as nat,
        }
    }
}

impl Depth {
    spec fn within(self, n: int) -> bool {
        self.numbered <= n && self.bullets <= n && self.quotes <= n && self.headings <= n
    }

    fn one_less(n: usize) -> (res: usize)
        ensures
            res == one_less(n as nat),
            res <= n,
    {
        if n == 0 {
            0
        } else {
            n - 1
        }
    }

    fn columns(&self) -> (res: i128)
        ensures
            res == indent(self@),
    {
        24 * (self.numbered as i128) + 6 * (self.bullets as i128 + self.quotes as i128
            + self.headings as i128)
    }

    fn behind(&self, tag: &str, closing: bool, n: usize) -> (res: Depth)
        requires
            self.within(n as int),
            n < usize::MAX,
        ensures
            res@ == nesting_after(self@, tag@, closing),
            res.within(n + 1),
    {
        let name = find_name(tag);
        let name = name.as_str();
        let mut res = *self;
        if strings::same(name, "ol") {
            res.numbered = self.numbered + 1;
        } else if strings::same(name, "ul") {
            res.bullets = self.bullets + 1;
        } else if strings::same(name, "blockquote") {
            res.quotes = self.quotes + 1;
        } else if strings::same(name, "h1") || strings::same(name, "h2") || strings::same(
            name,
            "h3",
        ) || strings::same(name, "h4") {
            res.headings = self.headings + 1;
        } else if closing && strings::same(name, "/ol") {
            res.numbered = Self::one_less(self.numbered);
        } else if closing && strings::same(name, "/ul") {
            res.bullets = Self::one_less(self.bullets);
        } else if closing && strings::same(name, "/blockquote") {
            res.quotes = Self::one_less(self.quotes);
        } else if closing && (strings::same(name, "/h1") || strings::same(name, "/h2")
            || strings::same(name, "/h3") || strings::same(name, "/h4")) {
            res.headings = Self::one_less(self.headings);
        }
        res
    }
}

fn zone_behind(zone: Zone, tag: &str) -> (res: Option<Zone>)
    ensures
        res == zone_after(zone, tag@),
{
    let name = find_name(tag);
    let n = name.as_str();
    if strings::same(n, "table") {
        if zone == Zone::Flow {
            Some(Zone::Rows)
        } else {
            None
        }
    } else if zone == Zone::Flow || strings::same(n, "/table") {
        Some(Zone::Flow)
    } else if strings::same(n, "td") || strings::same(n, "th") {
        Some(Zone::Cell)
    } else if strings::same(n, "/td") || strings::same(n, "/th") || strings::same(n, "tr")
        || strings::same(n, "/tr") || strings::same(n, "thead") || strings::same(n, "/thead")
        || strings::same(n, "tbody") || strings::same(n, "/tbody") || strings::same(n, "caption")
        || strings::same(n, "colgroup") || strings::same(n, "col") {
        Some(Zone::Rows)
    } else {
        Some(zone)
    }
}

/// What is known behind some parts of a text.
struct Scan {
    zone: Zone,
    depth: Depth,
    in_word: bool,
    wide: bool,
    clean: bool,
    first: bool,
    late: bool,
    columns: usize,
    letters: usize,
    emoji: bool,
    deepest: i128,
    whole: bool,
}

impl View for Scan {
    type V = WordScan;

    closed spec fn view(&self) -> WordScan {
        WordScan {
            zone: self.zone,
            nesting: self.depth@,
            in_word: self.in_word,
            wide: self.wide,
            clean: self.clean,
            first: self.first,
            late: self.late,
            columns: self.columns as nat,
            letters: self.letters as nat,
            emoji: self.emoji,
            deepest: self.deepest as int,
            whole: self.whole,
        }
    }
}

/// What is asked of all words of a text.
struct Rules {
    room: i128,
    closing: bool,
    marks: usize,
    short: bool,
}

impl View for Rules {
    type V = WordRules;

    closed spec fn view(&self) -> WordRules {
        WordRules {
            room: self.room as int,
            closing: self.closing,
            marks: self.marks as nat,
            short: self.short,
        }
    }
}

impl Scan {
    /// Whether the counts are those of at most `n` parts.
    spec fn within(self, n: int) -> bool {
        &&& self.depth.within(n)
        &&& self.columns <= MAX_COLUMNS
        &&& 0 <= self.deepest <= 42 * n
    }

    fn start_word(self) -> (res: Scan)
        ensures
            res@ == word_start(self@),
            res.depth == self.depth,
            res.columns == 0,
            res.deepest == indent(self.depth@),
    {
        let deepest = self.depth.columns();
        Scan {
            zone: self.zone,
            depth: self.depth,
            in_word: false,
            wide: false,
            clean: true,
            first: false,
            late: false,
            columns: 0,
            letters: 0,
            emoji: false,
            deepest,
            whole: self.whole,
        }
    }

    fn look(self, rules: &Rules) -> (res: Scan)
        requires
            self.columns <= MAX_COLUMNS,
            0 <= self.deepest <= 42 * usize::MAX,
        ensures
            res@ == looked_at(self@, rules@),
            res.depth == self.depth,
            res.columns == self.columns,
            res.deepest == self.deepest,
    {
        let in_cell = self.zone == Zone::Cell;
        let whole = !self.emoji || (!in_cell && self.columns as i128 + self.deepest <= rules.room)
            || (in_cell && self.letters <= 1 && rules.marks == 0) || (in_cell && self.clean
            && !self.late) || (in_cell && rules.short && rules.marks == 0);
        Scan {
            zone: self.zone,
            depth: self.depth,
            in_word: self.in_word,
            wide: self.wide,
            clean: self.clean,
            first: self.first,
            late: self.late,
            columns: self.columns,
            letters: self.letters,
            emoji: self.emoji,
            deepest: self.deepest,
            whole: self.whole && whole,
        }
    }

    fn can_end(&self, rules: &Rules) -> (res: bool)
        ensures
            res == may_end(self@, rules@),
    {
        self.zone != Zone::Cell || !self.emoji || rules.marks == 0 || (self.clean && self.first)
    }

    fn behind_char(self, c: char, rules: &Rules, n: usize) -> (res: Scan)
        requires
            self.within(n as int),
            n < usize::MAX,
        ensures
            res@ == after_char(self@, c, rules@),
            res.within(n + 1),
    {
        if self.in_word && c.is_whitespace() {
            return self.start_word();
        }
        let text = !c.is_whitespace() && c != '\0';
        let wide = c as u32 >= 0x1100;
        let more: usize = if c == EMOJI_SELECTOR {
            if self.wide {
                0
            } else {
                1
            }
        } else if wide {
            2
        } else {
            1
        };
        let letters = if text && c != EMOJI_SELECTOR && c != KEY_CAP {
            sum_up_to_most(self.letters, 1)
        } else {
            self.letters
        };
        Scan {
            zone: self.zone,
            depth: self.depth,
            in_word: text,
            wide,
            clean: self.clean,
            first: self.first,
            late: self.late || (c == EMOJI_SELECTOR && self.letters > 1),
            columns: sum_up_to_most(self.columns, more),
            letters,
            emoji: self.emoji || c == EMOJI_SELECTOR,
            deepest: self.deepest,
            whole: self.whole && !(self.zone == Zone::Rows && text),
        }.look(rules)
    }

    fn behind_tag(self, tag: &str, rules: &Rules, n: usize) -> (res: Scan)
        requires
            self.within(n as int),
            n < usize::MAX,
        ensures
            res@ == after_tag(self@, tag@, rules@),
            res.within(n + 1),
    {
        let depth = self.depth.behind(tag, rules.closing, n);
        let zone = match zone_behind(self.zone, tag) {
            None => {
                return Scan { whole: false, ..self };
            },
            Some(zone) => zone,
        };
        if zone == Zone::Cell && is_cell_tag(tag) {
            let whole = self.whole && self.can_end(rules);
            return Scan { first: true, whole, ..Scan { zone, depth, ..self }.start_word() };
        }
        let shown = shows_own_text(tag);
        let t = strings::to_chars(tag);
        let indented = depth.columns();
        Scan {
            zone,
            depth,
            in_word: false,
            wide: false,
            clean: false,
            first: self.first,
            late: self.late,
            columns: sum_up_to_most(
                self.columns,
                sum_up_to_most(sum_up_to_most(rules.marks, rules.marks), count_own_columns(tag)),
            ),
            letters: if shown {
                sum_up_to_most(self.letters, 2)
            } else {
                self.letters
            },
            emoji: self.emoji || (shown && has_char(&t, EMOJI_SELECTOR)),
            deepest: if indented > self.deepest {
                indented
            } else {
                self.deepest
            },
            whole: self.whole && !(zone == Zone::Rows && shown) && (zone == Zone::Cell
                || self.can_end(rules)),
        }.look(rules)
    }
}

/// The columns that all parts take at most.
fn count_all_columns(ts: &Vec<Token>) -> (res: usize)
    ensures
        res == all_columns(token_views(ts@)),
{
    let ghost all = token_views(ts@);
    let mut res: usize = 0;
    for i in 0..ts.len()
        invariant
            all == token_views(ts@),
            res == all_columns(all.take(i as int)),
            res <= MAX_COLUMNS,
    {
        assert(all.take(i + 1).drop_last() =~= all.take(i as int));
        assert(all.take(i + 1).last() == ts@[i as int]@);
        let more: usize = match &ts[i] {
            Token::Char(c) => if *c == EMOJI_SELECTOR {
                0
            } else if (*c as u32) < 0x1100 {
                1
            } else {
                2
            },
            Token::Tag(tag) => {
                let none = Depth { numbered: 0, bullets: 0, quotes: 0, headings: 0 };
                assert(none@ =~= no_nesting());
                let depth = none.behind(tag.as_str(), false, 0);
                let columns: i128 = depth.columns();
                sum_up_to_most(1 + columns as usize, count_own_columns(tag.as_str()))
            },
        };
        res = sum_up_to_most(res, more);
    }
    assert(all.take(all.len() as int) =~= all);
    res
}

/// Whether no word with a selector is one that may be split.
fn are_words_whole(ts: &Vec<Token>, width: usize) -> (res: bool)
    requires
        width <= MAX_WIDTH,
    ensures
        res == scanned(token_views(ts@), rules_for(token_views(ts@), width as int)).whole,
{
    let ghost all = token_views(ts@);
    let rules = Rules {
        room: width as i128,
        closing: !find_tag(ts, "table"),
        marks: count_all_marks(ts),
        short: count_all_columns(ts) <= width,
    };
    let mut scan = Scan {
        zone: Zone::Flow,
        depth: Depth { numbered: 0, bullets: 0, quotes: 0, headings: 0 },
        in_word: false,
        wide: false,
        clean: true,
        first: false,
        late: false,
        columns: 0,
        letters: 0,
        emoji: false,
        deepest: 0,
        whole: true,
    };
    assert(scan@ =~= no_words());
    for i in 0..ts.len()
        invariant
            all == token_views(ts@),
            rules@ == rules_for(all, width as int),
            scan@ == scanned(all.take(i as int), rules@),
            scan.within(i as int),
    {
        assert(all.take(i + 1).drop_last() =~= all.take(i as int));
        assert(all.take(i + 1).last() == ts@[i as int]@);
        scan = match &ts[i] {
            Token::Char(c) => scan.behind_char(*c, &rules, i),
            Token::Tag(tag) => scan.behind_tag(tag.as_str(), &rules, i),
        };
    }
    assert(all.take(all.len() as int) =~= all);
    scan.whole
}

fn is_only_flowing(h: &str) -> (res: bool)
    ensures
        res == only_flowing(h@),
{
    !strings::contains_text(h, "<dl") && !strings::contains_text(h, "<select")
        && !strings::contains_text(h, "<template") && !strings::contains_text(h, "<script")
        && !strings::contains_text(h, "<style") && !strings::contains_text(h, "<title")
        && !strings::contains_text(h, "<textarea") && !strings::contains_text(h, "<xmp")
        && !strings::contains_text(h, "<iframe") && !strings::contains_text(h, "<no")
        && !strings::contains_text(h, "<plaintext") && !strings::contains_text(h, "<svg")
        && !strings::contains_text(h, "<math") && !strings::contains_text(h, "<object")
        && !strings::contains_text(h, "<applet") && !strings::contains_text(h, "<marquee")
        && !strings::contains_text(h, "<tfoot")
}

fn do_tabs_fit(lowered: &str) -> (res: bool)
    ensures
        res == tabs_fit(lowered@),
{
    let h = strings::to_chars(lowered);
    !has_char(&h, '\t') || !strings::contains_text(lowered, "<pre") || (has_plain_tags(&h)
        && has_solid_texts(&split_tokens(&h)))
}

fn do_selectors_fit(lowered: &str, width: usize) -> (res: bool)
    requires
        width <= MAX_WIDTH,
    ensures
        res == selectors_fit(lowered@, width as int),
{
    let h = strings::to_chars(lowered);
    !has_char(&h, EMOJI_SELECTOR) || (is_only_flowing(lowered) && has_plain_tags(&h)
        && are_words_whole(&split_tokens(&h), width))
}

/// Whether some markup can be laid out in lines of a width.
pub fn can_be_laid_out(html: &str, width: usize) -> (res: bool)
    ensures
        res == fits(html@, width as int),
{
    let lowered = strings::with_ascii_lowered(html);
    let h = strings::to_chars(lowered.as_str());
    if !(0 < width && width <= MAX_WIDTH) || !has_plain_references(&h) {
        return false;
    }
    if (strings::contains_text(lowered.as_str(), "start") || strings::contains_text(
        lowered.as_str(),
        "colspan",
    )) && !(has_plain_tags(&h) && do_all_numbers_fit(&split_tokens(&h))) {
        return false;
    }
    do_tabs_fit(lowered.as_str()) && do_selectors_fit(lowered.as_str(), width)
}

/// The characters of no width that may stand in for an emoji selector.
pub open spec fn stand_in(i: int) -> Option<char> {
    if i == 0 {
        Some('\u{fe00}')
    } else if i == 1 {
        Some('\u{fe01}')
    } else if i == 2 {
        Some('\u{fe02}')
    } else if i == 3 {
        Some('\u{fe03}')
    } else if i == 4 {
        Some('\u{fe04}')
    } else if i == 5 {
        Some('\u{fe05}')
    } else if i == 6 {
        Some('\u{fe06}')
    } else if i == 7 {
        Some('\u{fe07}')
    } else if i == 8 {
        Some('\u{fe08}')
    } else if i == 9 {
        Some('\u{fe09}')
    } else if i == 10 {
        Some('\u{fe0a}')
    } else if i == 11 {
        Some('\u{fe0b}')
    } else if i == 12 {
        Some('\u{fe0c}')
    } else if i == 13 {
        Some('\u{fe0d}')
    } else {
        None
    }
}

/// The first stand-in from the `i`th on that does not occur in a text.
pub open spec fn spare_from(s: Seq<char>, i: nat) -> Option<char>
    decreases 14 - i,
{
    match stand_in(i as int) {
        None => None,
        Some(c) => if s.contains(c) {
            spare_from(s, i + 1)
        } else {
            Some(c)
        },
    }
}

/// The first stand-in that does not occur in a text.
pub open spec fn spare(s: Seq<char>) -> Option<char> {
    spare_from(s, 0)
}

/// Markup that is handed over, and the character that stands in it for the emoji selector, if any.
#[verifier::ext_equal]
pub struct PreparedView {
    pub html: Seq<char>,
    pub stand_in: Option<char>,
}

/// Some markup with its tabs as spaces, where they cannot be handed over.
pub open spec fn without_tabs(html: Seq<char>) -> Seq<char> {
    if tabs_fit(lowered(html)) {
        html
    } else {
        strings::replace_char(html, '\t', ' ')
    }
}

/// What is handed over of some markup: the markup itself, but for tabs and emoji selectors that
/// cannot be handed over. A word that is not split is laid out alike with a stand-in. One that is
/// split breaks at the same characters, unless marks stand within it; and in a table a stand-in
/// leaves a column more before the border.
pub open spec fn prepared(html: Seq<char>, width: int) -> PreparedView {
    let plain = without_tabs(html);
    if selectors_fit(lowered(plain), width) {
        PreparedView { html: plain, stand_in: None }
    } else {
        match spare(plain) {
            None => PreparedView { html: plain, stand_in: None },
            Some(c) => PreparedView {
                html: without_tabs(strings::replace_char(plain, EMOJI_SELECTOR, c)),
                stand_in: Some(c),
            },
        }
    }
}

/// A text that was laid out, its emoji selectors put back.
pub open spec fn restored(text: Seq<char>, stand_in: Option<char>) -> Seq<char> {
    match stand_in {
        None => text,
        Some(c) => strings::replace_char(text, c, EMOJI_SELECTOR),
    }
}

/// Markup that is handed over, and the character that stands in it for the emoji selector, if any.
pub struct Prepared {
    pub html: String,
    pub stand_in: Option<char>,
}

impl View for Prepared {
    type V = PreparedView;

    open spec fn view(&self) -> PreparedView {
        PreparedView { html: self.html@, stand_in: self.stand_in }
    }
}

fn stand_in_at(i: usize) -> (res: Option<char>)
    ensures
        res == stand_in(i as int),
{
    match i {
        0 => Some('\u{fe00}'),
        1 => Some('\u{fe01}'),
        2 => Some('\u{fe02}'),
        3 => Some('\u{fe03}'),
        4 => Some('\u{fe04}'),
        5 => Some('\u{fe05}'),
        6 => Some('\u{fe06}'),
        7 => Some('\u{fe07}'),
        8 => Some('\u{fe08}'),
        9 => Some('\u{fe09}'),
        10 => Some('\u{fe0a}'),
        11 => Some('\u{fe0b}'),
        12 => Some('\u{fe0c}'),
        13 => Some('\u{fe0d}'),
        _ => None,
    }
}

fn find_spare(s: &Vec<char>, i: usize) -> (res: Option<char>)
    requires
        i <= 14,
    ensures
        res == spare_from(s@, i as nat),
    decreases 14 - i,
{
    match stand_in_at(i) {
        None => None,
        Some(c) => if has_char(s, c) {
            find_spare(s, i + 1)
        } else {
            Some(c)
        },
    }
}

fn take_tabs(html: &str) -> (res: String)
    ensures
        res@ == without_tabs(html@),
{
    let lower = strings::with_ascii_lowered(html);
    if do_tabs_fit(lower.as_str()) {
        strings::copy(html)
    } else {
        strings::with_char_replaced(html, '\t', ' ')
    }
}

/// Makes some markup ready to be handed over.
pub fn prepare(html: &str, width: usize) -> (res: Prepared)
    requires
        width <= MAX_WIDTH,
    ensures
        res@ == prepared(html@, width as int),
{
    let plain = take_tabs(html);
    let lower = strings::with_ascii_lowered(plain.as_str());
    if do_selectors_fit(lower.as_str(), width) {
        return Prepared { html: plain, stand_in: None };
    }
    match find_spare(&strings::to_chars(plain.as_str()), 0) {
        None => Prepared { html: plain, stand_in: None },
        Some(c) => {
            let hidden = strings::with_char_replaced(plain.as_str(), EMOJI_SELECTOR, c);
            Prepared { html: take_tabs(hidden.as_str()), stand_in: Some(c) }
        },
    }
}

/// Puts the emoji selectors back.
pub fn restore(text: String, stand_in: Option<char>) -> (res: String)
    ensures
        res@ == restored(text@, stand_in),
{
    match stand_in {
        None => text,
        Some(c) => strings::with_char_replaced(text.as_str(), c, EMOJI_SELECTOR),
    }
}

/// Whether two texts are the same but for characters that are no graphic ones of ASCII.
spec fn same_but_fillers(a: Seq<char>, b: Seq<char>) -> bool {
    a.len() == b.len() && forall|i: int|
        0 <= i < a.len() ==> #[trigger] a[i] == b[i] || (!(0x21 <= a[i] as u32 <= 0x7e) && !(0x21
            <= b[i] as u32 <= 0x7e))
}

spec fn is_graphic(s: Seq<char>) -> bool {
    forall|i: int| 0 <= i < s.len() ==> 0x21 <= #[trigger] s[i] as u32 <= 0x7e
}

proof fn lemma_same_occurs(needle: Seq<char>, a: Seq<char>, b: Seq<char>)
    requires
        is_graphic(needle),
        same_but_fillers(a, b),
        strings::occurs(needle, b),
    ensures
        strings::occurs(needle, a),
{
    let i = choose|i: int|
        0 <= i && i + needle.len() <= b.len() && #[trigger] b.subrange(i, i + needle.len())
            == needle;
    assert forall|k: int| 0 <= k < needle.len() implies a[i + k] == needle[k] by {
        assert(b.subrange(i, i + needle.len())[k] == needle[k]);
        assert(a[i + k] == b[i + k] || !(0x21 <= b[i + k] as u32 <= 0x7e));
    }
    assert(a.subrange(i, i + needle.len()) =~= needle);
}

proof fn lemma_same_starts(a: Seq<char>, b: Seq<char>, prefix: Seq<char>)
    requires
        is_graphic(prefix),
        same_but_fillers(a, b),
        strings::starts_with(a, prefix),
    ensures
        strings::starts_with(b, prefix),
{
    assert forall|k: int| 0 <= k < prefix.len() implies b[k] == prefix[k] by {
        assert(a.take(prefix.len() as int)[k] == prefix[k]);
        assert(a[k] == b[k] || !(0x21 <= a[k] as u32 <= 0x7e));
    }
    assert(b.take(prefix.len() as int) =~= prefix);
}

proof fn lemma_same_references(a: Seq<char>, b: Seq<char>)
    requires
        same_but_fillers(a, b),
        plain_references(a),
    ensures
        plain_references(b),
{
    reveal_strlit("&amp;");
    reveal_strlit("&lt;");
    reveal_strlit("&gt;");
    reveal_strlit("&quot;");
    reveal_strlit("&nbsp;");
    assert forall|i: int| 0 <= i < b.len() && #[trigger] b[i] == '&' implies plain_reference(
        b.skip(i),
    ) by {
        assert(a[i] == b[i] || !(0x21 <= b[i] as u32 <= 0x7e));
        assert(plain_reference(a.skip(i)));
        assert forall|k: int| 0 <= k < a.skip(i).len() implies #[trigger] a.skip(i)[k] == b.skip(
            i,
        )[k] || (!(0x21 <= a.skip(i)[k] as u32 <= 0x7e) && !(0x21 <= b.skip(i)[k] as u32
            <= 0x7e)) by {
            assert(a[i + k] == b[i + k] || (!(0x21 <= a[i + k] as u32 <= 0x7e) && !(0x21 <= b[i
                + k] as u32 <= 0x7e)));
        }
        assert(same_but_fillers(a.skip(i), b.skip(i)));
        if strings::starts_with(a.skip(i), "&amp;"@) {
            lemma_same_starts(a.skip(i), b.skip(i), "&amp;"@);
        } else if strings::starts_with(a.skip(i), "&lt;"@) {
            lemma_same_starts(a.skip(i), b.skip(i), "&lt;"@);
        } else if strings::starts_with(a.skip(i), "&gt;"@) {
            lemma_same_starts(a.skip(i), b.skip(i), "&gt;"@);
        } else if strings::starts_with(a.skip(i), "&quot;"@) {
            lemma_same_starts(a.skip(i), b.skip(i), "&quot;"@);
        } else {
            lemma_same_starts(a.skip(i), b.skip(i), "&nbsp;"@);
        }
    }
}

proof fn lemma_without_tabs(html: Seq<char>)
    ensures
        tabs_fit(lowered(without_tabs(html))),
        same_but_fillers(lowered(html), lowered(without_tabs(html))),
{
    if !tabs_fit(lowered(html)) {
        assert(!lowered(without_tabs(html)).contains('\t'));
    }
}

proof fn lemma_carried_over(a: Seq<char>, b: Seq<char>)
    requires
        same_but_fillers(lowered(a), lowered(b)),
        plain_references(lowered(a)),
        !strings::occurs("start"@, lowered(a)),
        !strings::occurs("colspan"@, lowered(a)),
    ensures
        plain_references(lowered(b)),
        !strings::occurs("start"@, lowered(b)),
        !strings::occurs("colspan"@, lowered(b)),
{
    reveal_strlit("start");
    reveal_strlit("colspan");
    lemma_same_references(lowered(a), lowered(b));
    if strings::occurs("start"@, lowered(b)) {
        lemma_same_occurs("start"@, lowered(a), lowered(b));
    }
    if strings::occurs("colspan"@, lowered(b)) {
        lemma_same_occurs("colspan"@, lowered(a), lowered(b));
    }
}

proof fn lemma_spare(s: Seq<char>, i: nat)
    ensures
        match spare_from(s, i) {
            Some(c) => !s.contains(c) && 0xfe00 <= c as u32 <= 0xfe0d,
            None => true,
        },
    decreases 14 - i,
{
    if stand_in(i as int) is Some && s.contains(stand_in(i as int)->Some_0) {
        lemma_spare(s, i + 1);
    }
}

/// Whatever words, tabs and emoji some markup holds, it is handed over: where its references are
/// plain, it starts no list at a number and spans no columns, and one of the stand-ins does not
/// occur in it, what is prepared of it can be laid out.
pub proof fn law_common_markup_is_handed_over(html: Seq<char>, width: int)
    requires
        0 < width <= MAX_WIDTH,
        plain_references(lowered(html)),
        !strings::occurs("start"@, lowered(html)),
        !strings::occurs("colspan"@, lowered(html)),
        spare(without_tabs(html)) is Some,
    ensures
        fits(prepared(html, width).html, width),
{
    let plain = without_tabs(html);
    let out = prepared(html, width).html;
    lemma_spare(plain, 0);
    lemma_without_tabs(html);
    lemma_carried_over(html, plain);
    if !selectors_fit(lowered(plain), width) {
        let c = spare(plain)->Some_0;
        let hidden = strings::replace_char(plain, EMOJI_SELECTOR, c);
        assert(same_but_fillers(lowered(plain), lowered(hidden)));
        assert(!lowered(hidden).contains(EMOJI_SELECTOR));
        lemma_without_tabs(hidden);
        lemma_carried_over(plain, hidden);
        lemma_carried_over(hidden, out);
        assert forall|i: int| 0 <= i < out.len() implies lowered(out)[i] != EMOJI_SELECTOR by {
            assert(lowered(hidden)[i] != EMOJI_SELECTOR);
        }
    }
}

/// The stand-in is put back where it was taken: a text in which it did not occur is the same again.
pub proof fn law_selectors_are_restored(html: Seq<char>, c: char)
    requires
        !html.contains(c),
    ensures
        restored(strings::replace_char(html, EMOJI_SELECTOR, c), Some(c)) == html,
{
    let hidden = strings::replace_char(html, EMOJI_SELECTOR, c);
    assert forall|i: int| 0 <= i < html.len() implies restored(hidden, Some(c))[i] == html[i] by {
        assert(html[i] != c);
    }
    assert(restored(hidden, Some(c)) =~= html);
}

} // verus!
