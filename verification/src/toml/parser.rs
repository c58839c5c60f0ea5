//! The document parser.
//!
//! The parser reads the document character by character. Every piece of
//! syntax is ASCII, so this sees exactly what a byte-level reader would;
//! columns count characters.

use vstd::prelude::*;
use crate::text::{owned, push_char, push_str};
use crate::toml::{Error, Node, Table, Value};

verus! {

// ------------------------------------------------------------- positions

/// Line and column (both from 1) of character `n` of `s`.
pub open spec fn position(s: Seq<char>, n: int) -> (nat, nat)
    decreases n,
{
    if n <= 0 {
        (1, 1)
    } else {
        let (l, c) = position(s, n - 1);
        if s[n - 1] == '\n' {
            (l + 1, 1)
        } else {
            (l, c + 1)
        }
    }
}

pub proof fn lemma_position_bound(s: Seq<char>, n: int)
    requires
        n >= 0,
    ensures
        1 <= position(s, n).0 <= n + 1,
        1 <= position(s, n).1 <= n + 1,
    decreases n,
{
    if n > 0 {
        lemma_position_bound(s, n - 1);
    }
}

/// An error detected at character `at`.
pub open spec fn error_at(s: Seq<char>, at: int, message: Seq<char>) -> (Seq<char>, nat, nat) {
    (message, position(s, at).0, position(s, at).1)
}

pub open spec fn error_view(e: Error) -> (Seq<char>, nat, nat) {
    (e.message@, e.line as nat, e.col as nat)
}

// ------------------------------------------------------- character classes

pub open spec fn is_inline_space(c: char) -> bool {
    c == ' ' || c == '\t'
}

pub open spec fn is_trivia_space(c: char) -> bool {
    c == ' ' || c == '\t' || c == '\r' || c == '\n'
}

pub open spec fn is_bare_key_char(c: char) -> bool {
    crate::text::is_ascii_alnum(c) || c == '_' || c == '-'
}

pub open spec fn is_number_char(c: char) -> bool {
    crate::text::is_ascii_alnum(c) || c == '_' || c == '.' || c == '+' || c == '-' || c == ':'
}

/// The first index at or after `i` whose character does not satisfy `p`.
pub open spec fn skip_while(s: Seq<char>, i: int, p: spec_fn(char) -> bool) -> int
    decreases s.len() - i,
{
    if i < 0 || i >= s.len() || !p(s[i]) {
        i
    } else {
        skip_while(s, i + 1, p)
    }
}

pub proof fn lemma_skip_while(s: Seq<char>, i: int, p: spec_fn(char) -> bool)
    requires
        0 <= i <= s.len(),
    ensures
        i <= skip_while(s, i, p) <= s.len(),
        forall|k: int| i <= k < skip_while(s, i, p) ==> p(#[trigger] s[k]),
        skip_while(s, i, p) < s.len() ==> !p(s[skip_while(s, i, p)]),
    decreases s.len() - i,
{
    if i < s.len() && p(s[i]) {
        lemma_skip_while(s, i + 1, p);
    }
}

/// Where a comment starting at `i` ends: at the line break, or the end.
pub open spec fn comment_end(s: Seq<char>, i: int) -> int {
    if 0 <= i < s.len() && s[i] == '#' {
        skip_while(s, i, |c: char| c != '\n')
    } else {
        i
    }
}

/// Where whitespace, comments and line breaks starting at `i` end.
pub open spec fn trivia_end(s: Seq<char>, i: int) -> int
    decreases s.len() - i,
{
    if i < 0 || i >= s.len() {
        i
    } else if is_trivia_space(s[i]) {
        trivia_end(s, i + 1)
    } else if s[i] == '#' {
        let e = comment_end(s, i);
        if i < e <= s.len() {
            trivia_end(s, e)
        } else {
            i
        }
    } else {
        i
    }
}

// ------------------------------------------------------------ diagnostics

/// The first UTF-8 byte of `c`.
pub open spec fn lead_byte(c: char) -> u32 {
    let v = c as u32;
    if v < 0x80 {
        v
    } else if v < 0x800 {
        (0xC0 + v / 64) as u32
    } else if v < 0x10000 {
        (0xE0 + v / 4096) as u32
    } else {
        (0xF0 + v / 262144) as u32
    }
}

pub open spec fn hex_digit_char(d: nat) -> char {
    if d < 10 {
        ('0' as u8 + d) as char
    } else {
        ('a' as u8 + d - 10) as char
    }
}

/// Lower-case hexadecimal digits of `n`, without leading zeros.
pub open spec fn hex_text(n: nat) -> Seq<char>
    decreases n,
{
    if n < 16 {
        seq![hex_digit_char(n)]
    } else {
        hex_text(n / 16).push(hex_digit_char(n % 16))
    }
}

/// How `{:?}` shows the byte `b` read as a character: quoted, with the
/// escapes Rust uses for characters up to U+00FF.
pub open spec fn shown_byte(b: u32) -> Seq<char> {
    let body = if b == 0 {
        "\\0"@
    } else if b == 9 {
        "\\t"@
    } else if b == 10 {
        "\\n"@
    } else if b == 13 {
        "\\r"@
    } else if b == 39 {
        "\\'"@
    } else if b == 92 {
        "\\\\"@
    } else if (0x20 <= b < 0x7f) || (0xa1 <= b <= 0xff && b != 0xad) {
        seq![b as char]
    } else {
        "\\u{"@ + hex_text(b as nat) + "}"@
    };
    seq!['\''] + body + seq!['\'']
}

fn hex_string(n: u32) -> (s: String)
    ensures
        s@ == hex_text(n as nat),
    decreases n,
{
    let d = n % 16;
    let c: char = if d < 10 {
        ('0' as u8 + d as u8) as char
    } else {
        ('a' as u8 + d as u8 - 10) as char
    };
    if n < 16 {
        let mut s = String::new();
        push_char(&mut s, c);
        s
    } else {
        let mut s = hex_string(n / 16);
        push_char(&mut s, c);
        s
    }
}

/// `{:?}` of the first byte of `c`, as the byte-level reader reports it.
fn shown(c: char) -> (s: String)
    ensures
        s@ == shown_byte(lead_byte(c)),
{
    let v = c as u32;
    let b: u32 = if v < 0x80 {
        v
    } else if v < 0x800 {
        0xC0 + v / 64
    } else if v < 0x10000 {
        0xE0 + v / 4096
    } else {
        0xF0 + v / 262144
    };
    let mut out = owned("'");
    if b == 0 {
        push_str(&mut out, "\\0");
    } else if b == 9 {
        push_str(&mut out, "\\t");
    } else if b == 10 {
        push_str(&mut out, "\\n");
    } else if b == 13 {
        push_str(&mut out, "\\r");
    } else if b == 39 {
        push_str(&mut out, "\\'");
    } else if b == 92 {
        push_str(&mut out, "\\\\");
    } else if (0x20 <= b && b < 0x7f) || (0xa1 <= b && b <= 0xff && b != 0xad) {
        push_char(&mut out, (b as u8) as char);
    } else {
        push_str(&mut out, "\\u{");
        let h = hex_string(b);
        push_str(&mut out, h.as_str());
        push_str(&mut out, "}");
    }
    push_str(&mut out, "'");
    proof {
        reveal_strlit("'");
        reveal_strlit("\\0");
        reveal_strlit("\\t");
        reveal_strlit("\\n");
        reveal_strlit("\\r");
        reveal_strlit("\\'");
        reveal_strlit("\\\\");
        reveal_strlit("\\u{");
        reveal_strlit("}");
        assert(out@ =~= shown_byte(lead_byte(c)));
    }
    out
}

// ------------------------------------------------------------------ cursor

/// The parse state: the document, the cursor and its position, and the
/// table paths declared so far.
pub struct Parser {
    chars: Vec<char>,
    pos: usize,
    line: usize,
    col: usize,
    /// Paths declared with an explicit `[table]` header.
    explicit_tables: Vec<Vec<String>>,
    /// Paths declared with an explicit `[[array]]` header.
    array_tables: Vec<Vec<String>>,
    /// Paths created implicitly by a dotted key, which a header may not reopen.
    dotted_tables: Vec<Vec<String>>,
}

impl Parser {
    pub closed spec fn text(&self) -> Seq<char> {
        self.chars@
    }

    pub closed spec fn at(&self) -> int {
        self.pos as int
    }

    /// No header has been read yet.
    pub closed spec fn fresh(&self) -> bool {
        &&& self.explicit_tables@.len() == 0
        &&& self.array_tables@.len() == 0
        &&& self.dotted_tables@.len() == 0
    }

    /// The cursor is inside the document and its line and column are right.
    pub closed spec fn inv(&self) -> bool {
        &&& self.pos <= self.chars@.len()
        &&& self.chars@.len() < usize::MAX
        &&& (self.line as nat, self.col as nat) == position(self.chars@, self.pos as int)
    }

    pub fn new(input: &str) -> (p: Parser)
        requires
            input@.len() < usize::MAX,
        ensures
            p.inv(),
            p.text() == input@,
            p.at() == 0,
            p.fresh(),
    {
        Parser {
            chars: crate::text::chars_of(input),
            pos: 0,
            line: 1,
            col: 1,
            explicit_tables: Vec::new(),
            array_tables: Vec::new(),
            dotted_tables: Vec::new(),
        }
    }

    fn peek(&self) -> (r: Option<char>)
        requires
            self.inv(),
        ensures
            r == (if self.at() < self.text().len() { Some(self.text()[self.at()]) } else { None::<char> }),
    {
        if self.pos < self.chars.len() {
            Some(self.chars[self.pos])
        } else {
            None
        }
    }

    fn peek_at(&self, offset: usize) -> (r: Option<char>)
        requires
            self.inv(),
            offset <= 3,
        ensures
            r == (if self.at() + offset < self.text().len() {
                Some(self.text()[self.at() + offset])
            } else {
                None::<char>
            }),
    {
        if offset < self.chars.len() - self.pos {
            Some(self.chars[self.pos + offset])
        } else {
            None
        }
    }

    /// Step over one character.
    fn bump(&mut self)
        requires
            old(self).inv(),
            old(self).at() < old(self).text().len(),
        ensures
            final(self).inv(),
            final(self).text() == old(self).text(),
            old(self).at() <= final(self).at(),
            final(self).at() == old(self).at() + 1,
            final(self).explicit_tables == old(self).explicit_tables,
            final(self).array_tables == old(self).array_tables,
            final(self).dotted_tables == old(self).dotted_tables,
    {
        proof {
            lemma_position_bound(self.chars@, self.pos as int);
        }
        let c = self.chars[self.pos];
        self.pos = self.pos + 1;
        if c == '\n' {
            self.line = self.line + 1;
            self.col = 1;
        } else {
            self.col = self.col + 1;
        }
    }

    /// Step over `n` characters.
    fn bump_n(&mut self, n: usize)
        requires
            old(self).inv(),
            old(self).at() + n <= old(self).text().len(),
        ensures
            final(self).inv(),
            final(self).text() == old(self).text(),
            old(self).at() <= final(self).at(),
            final(self).at() == old(self).at() + n,
            final(self).explicit_tables == old(self).explicit_tables,
            final(self).array_tables == old(self).array_tables,
            final(self).dotted_tables == old(self).dotted_tables,
    {
        let mut k: usize = 0;
        while k < n
            invariant
                k <= n,
                self.inv(),
                self.text() == old(self).text(),
                self.at() == old(self).at() + k,
                old(self).at() + n <= old(self).text().len(),
                self.explicit_tables == old(self).explicit_tables,
                self.array_tables == old(self).array_tables,
                self.dotted_tables == old(self).dotted_tables,
            decreases n - k,
        {
            self.bump();
            k = k + 1;
        }
    }

    /// An error at the cursor.
    fn error_here(&self, message: String) -> (e: Error)
        requires
            self.inv(),
        ensures
            error_view(e) == error_at(self.text(), self.at(), message@),
    {
        Error { message, line: self.line, col: self.col }
    }

    // ------------------------------------------------------------ trivia

    fn skip_inline_whitespace(&mut self)
        requires
            old(self).inv(),
        ensures
            final(self).inv(),
            final(self).text() == old(self).text(),
            old(self).at() <= final(self).at(),
            final(self).at() == skip_while(old(self).text(), old(self).at(), |c: char| is_inline_space(c)),
            final(self).explicit_tables == old(self).explicit_tables,
            final(self).array_tables == old(self).array_tables,
            final(self).dotted_tables == old(self).dotted_tables,
    {
        let ghost s = self.text();
        let ghost start = self.at();
        let ghost p = |c: char| is_inline_space(c);
        while self.pos < self.chars.len() && (self.chars[self.pos] == ' ' || self.chars[self.pos] == '\t')
            invariant
                self.inv(),
                self.text() == s,
                start <= self.at(),
                p == (|c: char| is_inline_space(c)),
                skip_while(s, self.at(), p) == skip_while(s, start, p),
                self.explicit_tables == old(self).explicit_tables,
                self.array_tables == old(self).array_tables,
                self.dotted_tables == old(self).dotted_tables,
            decreases s.len() - self.at(),
        {
            let ghost before = self.at();
            assert(is_inline_space(s[before]));
            assert(p(s[before]));
            self.bump();
            assert(skip_while(s, before, p) == skip_while(s, before + 1, p));
        }
    }

    fn skip_comment(&mut self)
        requires
            old(self).inv(),
        ensures
            final(self).inv(),
            final(self).text() == old(self).text(),
            old(self).at() <= final(self).at(),
            final(self).at() == comment_end(old(self).text(), old(self).at()),
            final(self).explicit_tables == old(self).explicit_tables,
            final(self).array_tables == old(self).array_tables,
            final(self).dotted_tables == old(self).dotted_tables,
    {
        let ghost s = self.text();
        let ghost start = self.at();
        let ghost p = |c: char| c != '\n';
        if self.pos < self.chars.len() && self.chars[self.pos] == '#' {
            while self.pos < self.chars.len() && self.chars[self.pos] != '\n'
                invariant
                    self.inv(),
                    self.text() == s,
                    start <= self.at(),
                    p == (|c: char| c != '\n'),
                    skip_while(s, self.at(), p) == skip_while(s, start, p),
                    self.explicit_tables == old(self).explicit_tables,
                    self.array_tables == old(self).array_tables,
                    self.dotted_tables == old(self).dotted_tables,
                decreases s.len() - self.at(),
            {
                let ghost before = self.at();
                assert(s[before] != '\n');
                assert(p(s[before]));
                self.bump();
                assert(skip_while(s, before, p) == skip_while(s, before + 1, p));
            }
        }
    }

    /// Skip whitespace, comments and line breaks.
    fn skip_trivia(&mut self)
        requires
            old(self).inv(),
        ensures
            final(self).inv(),
            final(self).text() == old(self).text(),
            old(self).at() <= final(self).at(),
            final(self).at() == trivia_end(old(self).text(), old(self).at()),
            final(self).explicit_tables == old(self).explicit_tables,
            final(self).array_tables == old(self).array_tables,
            final(self).dotted_tables == old(self).dotted_tables,
    {
        let ghost s = self.text();
        let ghost start = self.at();
        loop
            invariant
                self.inv(),
                self.text() == s,
                trivia_end(s, self.at()) == trivia_end(s, start),
                start <= self.at(),
                start == old(self).at(),
                self.explicit_tables == old(self).explicit_tables,
                self.array_tables == old(self).array_tables,
                self.dotted_tables == old(self).dotted_tables,
            ensures
                self.inv(),
                self.text() == s,
                self.at() == trivia_end(s, start),
                start <= self.at(),
                self.explicit_tables == old(self).explicit_tables,
                self.array_tables == old(self).array_tables,
                self.dotted_tables == old(self).dotted_tables,
            decreases s.len() - self.at(),
        {
            match self.peek() {
                Some(c) => {
                    if c == ' ' || c == '\t' || c == '\r' || c == '\n' {
                        self.bump();
                    } else if c == '#' {
                        proof {
                            lemma_skip_while(s, self.at(), |c: char| c != '\n');
                            assert(s[self.at()] != '\n');
                            lemma_skip_while(s, self.at() + 1, |c: char| c != '\n');
                        }
                        self.skip_comment();
                    } else {
                        break;
                    }
                },
                None => {
                    break;
                },
            }
        }
    }

    /// Consume the rest of a line, which may only hold whitespace and a comment.
    fn expect_line_end(&mut self) -> (r: Result<(), Error>)
        requires
            old(self).inv(),
        ensures
            final(self).inv(),
            final(self).text() == old(self).text(),
            old(self).at() <= final(self).at(),
            final(self).explicit_tables == old(self).explicit_tables,
            final(self).array_tables == old(self).array_tables,
            final(self).dotted_tables == old(self).dotted_tables,
            ({
                let s = old(self).text();
                let e = comment_end(s, skip_while(s, old(self).at(), |c: char| is_inline_space(c)));
                match line_end(s, e) {
                    Ok(n) => r is Ok && final(self).at() == n,
                    Err(m) => r matches Err(err) && error_view(err) == error_at(s, e, m),
                }
            }),
    {
        self.skip_inline_whitespace();
        self.skip_comment();
        match self.peek() {
            None => Ok(()),
            Some(c) => {
                if c == '\n' {
                    self.bump();
                    Ok(())
                } else if c == '\r' && self.peek_at(1) == Some('\n') {
                    self.bump();
                    self.bump();
                    Ok(())
                } else {
                    let mut m = owned("unexpected trailing character ");
                    let shown_c = shown(c);
                    push_str(&mut m, shown_c.as_str());
                    Err(self.error_here(m))
                }
            },
        }
    }
}

/// After `i`, the end of a line: where the next line starts, or the error.
pub open spec fn line_end(s: Seq<char>, i: int) -> Result<int, Seq<char>> {
    if i >= s.len() {
        Ok(i)
    } else if s[i] == '\n' {
        Ok(i + 1)
    } else if s[i] == '\r' && i + 1 < s.len() && s[i + 1] == '\n' {
        Ok(i + 2)
    } else {
        Err("unexpected trailing character "@ + shown_byte(lead_byte(s[i])))
    }
}

// ---------------------------------------------------------------- strings

/// Digits of `n` in upper-case hexadecimal, without leading zeros.
pub open spec fn upper_hex_text(n: nat) -> Seq<char>
    decreases n,
{
    let d = n % 16;
    let c = if d < 10 { ('0' as u8 + d) as char } else { ('A' as u8 + d - 10) as char };
    if n < 16 {
        seq![c]
    } else {
        upper_hex_text(n / 16).push(c)
    }
}

pub open spec fn zeros(n: nat) -> Seq<char>
    decreases n,
{
    if n == 0 {
        seq![]
    } else {
        zeros((n - 1) as nat).push('0')
    }
}

/// `{:04X}`: upper-case hexadecimal, padded with zeros to four digits.
pub open spec fn hex4(n: nat) -> Seq<char> {
    let t = upper_hex_text(n);
    if t.len() >= 4 {
        t
    } else {
        zeros((4 - t.len()) as nat) + t
    }
}

pub open spec fn is_scalar_value(n: nat) -> bool {
    n < 0xD800 || (0xE000 <= n && n <= 0x10FFFF)
}

/// The value of the `n` hexadecimal digits at `j`, or the error.
pub open spec fn hex_run(s: Seq<char>, j: int, n: nat) -> Result<nat, (Seq<char>, int)>
    decreases n,
{
    if n == 0 {
        Ok(0)
    } else {
        match hex_run(s, j, (n - 1) as nat) {
            Err(e) => Err(e),
            Ok(v) => {
                let k = j + n - 1;
                if k >= s.len() {
                    Err(("truncated unicode escape"@, k))
                } else if !crate::text::is_hex_digit(s[k]) {
                    Err(("invalid hexadecimal digit "@ + shown_byte(lead_byte(s[k])), k + 1))
                } else {
                    Ok(v * 16 + crate::text::hex_value(s[k]))
                }
            },
        }
    }
}

/// A `\u` or `\U` escape whose digits start at `j`.
pub open spec fn unicode_escape(s: Seq<char>, j: int, width: nat) -> Result<(Seq<char>, int), (Seq<char>, int)> {
    match hex_run(s, j, width) {
        Err(e) => Err(e),
        Ok(code) => if is_scalar_value(code) {
            Ok((seq![code as char], j + width))
        } else {
            Err(("`\\u"@ + hex4(code) + "` is not a valid Unicode scalar value"@, j + width))
        },
    }
}

/// The escape whose letter is at `j`: what it stands for, and where it ends.
pub open spec fn escape(s: Seq<char>, j: int) -> Result<(Seq<char>, int), (Seq<char>, int)> {
    if j < 0 || j >= s.len() {
        Err(("unterminated escape sequence"@, j))
    } else {
        let c = s[j];
        if c == 'b' {
            Ok((seq!['\u{8}'], j + 1))
        } else if c == 't' {
            Ok((seq!['\t'], j + 1))
        } else if c == 'n' {
            Ok((seq!['\n'], j + 1))
        } else if c == 'f' {
            Ok((seq!['\u{c}'], j + 1))
        } else if c == 'r' {
            Ok((seq!['\r'], j + 1))
        } else if c == '"' {
            Ok((seq!['"'], j + 1))
        } else if c == '\\' {
            Ok((seq!['\\'], j + 1))
        } else if c == 'u' {
            unicode_escape(s, j + 1, 4)
        } else if c == 'U' {
            unicode_escape(s, j + 1, 8)
        } else {
            Err(("unknown escape sequence `\\"@ + seq![lead_byte(c) as char] + "`"@, j + 1))
        }
    }
}

pub proof fn lemma_hex_run(s: Seq<char>, j: int, n: nat)
    requires
        0 <= j <= s.len(),
    ensures
        hex_run(s, j, n) matches Ok(v) ==> j + n <= s.len() && v < pow16(n),
        hex_run(s, j, n) matches Err((m, k)) ==> j <= k <= j + n && k <= s.len(),
    decreases n,
{
    if n > 0 {
        lemma_hex_run(s, j, (n - 1) as nat);
        if let Ok(v) = hex_run(s, j, (n - 1) as nat) {
            let k = j + n - 1;
            if k < s.len() && crate::text::is_hex_digit(s[k]) {
                assert(crate::text::hex_value(s[k]) < 16);
                assert(v * 16 + crate::text::hex_value(s[k]) < pow16(n)) by (nonlinear_arith)
                    requires
                        v < pow16((n - 1) as nat),
                        crate::text::hex_value(s[k]) < 16,
                        pow16(n) == 16 * pow16((n - 1) as nat),
                ;
            }
        }
    }
}

pub open spec fn pow16(n: nat) -> nat
    decreases n,
{
    if n == 0 {
        1
    } else {
        16 * pow16((n - 1) as nat)
    }
}

/// Once the digits fail, more digits fail the same way.
pub proof fn lemma_hex_run_stays_failed(s: Seq<char>, j: int, n: nat, m: nat)
    requires
        n <= m,
        hex_run(s, j, n) is Err,
    ensures
        hex_run(s, j, m) == hex_run(s, j, n),
    decreases m,
{
    if m > n {
        lemma_hex_run_stays_failed(s, j, n, (m - 1) as nat);
    }
}

pub proof fn lemma_escape_bounds(s: Seq<char>, j: int)
    requires
        0 <= j,
    ensures
        escape(s, j) matches Ok((t, k)) ==> j < k <= s.len(),
        escape(s, j) matches Err((m, k)) ==> j <= k <= s.len() || (k == j && j >= s.len()),
{
    if 0 <= j < s.len() {
        lemma_hex_run(s, j + 1, 4);
        lemma_hex_run(s, j + 1, 8);
    }
}

impl Parser {
    fn parse_unicode_escape(&mut self, out: &mut String, width: usize) -> (r: Result<(), Error>)
        requires
            old(self).inv(),
            width == 4 || width == 8,
        ensures
            final(self).inv(),
            final(self).text() == old(self).text(),
            old(self).at() <= final(self).at(),
            final(self).explicit_tables == old(self).explicit_tables,
            final(self).array_tables == old(self).array_tables,
            final(self).dotted_tables == old(self).dotted_tables,
            match unicode_escape(old(self).text(), old(self).at(), width as nat) {
                Ok((t, k)) => r is Ok && final(self).at() == k && final(out)@ == old(out)@ + t,
                Err((m, k)) => r matches Err(e) && error_view(e) == error_at(old(self).text(), k, m),
            },
    {
        let ghost s = self.text();
        let ghost j = self.at();
        let mut code: u32 = 0;
        let mut i: usize = 0;
        proof {
            lemma_hex_run(s, j, width as nat);
        }
        while i < width
            invariant
                self.inv(),
                self.text() == s,
                s == old(self).text(),
                j == old(self).at(),
                i <= width,
                width == 4 || width == 8,
                self.at() == j + i,
                hex_run(s, j, i as nat) == Ok::<nat, (Seq<char>, int)>(code as nat),
                code < pow16(i as nat),
                self.explicit_tables == old(self).explicit_tables,
                self.array_tables == old(self).array_tables,
                self.dotted_tables == old(self).dotted_tables,
            decreases width - i,
        {
            proof {
                lemma_pow16_bound(i as nat);
                lemma_pow16_bound((i + 1) as nat);
            }
            let c = match self.peek() {
                Some(c) => c,
                None => {
                    proof {
                        lemma_hex_run_stays_failed(s, j, (i + 1) as nat, width as nat);
                    }
                    return Err(self.error_here(owned("truncated unicode escape")));
                },
            };
            self.bump();
            if !crate::text::hex_digit(c) {
                let mut m = owned("invalid hexadecimal digit ");
                let sc = shown(c);
                push_str(&mut m, sc.as_str());
                proof {
                    lemma_hex_run_stays_failed(s, j, (i + 1) as nat, width as nat);
                }
                return Err(self.error_here(m));
            }
            let d = crate::text::hex_digit_value(c);
            proof {
                assert(code * 16 + d < pow16((i + 1) as nat)) by (nonlinear_arith)
                    requires
                        code < pow16(i as nat),
                        d < 16,
                        pow16((i + 1) as nat) == 16 * pow16(i as nat),
                ;
            }
            code = code * 16 + d;
            i = i + 1;
        }
        let ghost cv = code as nat;
        match crate::text::char_from_u32(code) {
            Some(ch) => {
                push_char(out, ch);
                Ok(())
            },
            None => {
                let mut m = owned("`\\u");
                let h = upper_hex4(code);
                push_str(&mut m, h.as_str());
                push_str(&mut m, "` is not a valid Unicode scalar value");
                Err(self.error_here(m))
            },
        }
    }
}

pub proof fn lemma_pow16_bound(n: nat)
    requires
        n <= 8,
    ensures
        pow16(n) <= 0x1_0000_0000,
        pow16(n + 1) == 16 * pow16(n),
{
    reveal_with_fuel(pow16, 9);
}

fn upper_hex_string(n: u32) -> (s: String)
    ensures
        s@ == upper_hex_text(n as nat),
    decreases n,
{
    let d = n % 16;
    let c: char = if d < 10 {
        ('0' as u8 + d as u8) as char
    } else {
        ('A' as u8 + d as u8 - 10) as char
    };
    if n < 16 {
        let mut s = String::new();
        push_char(&mut s, c);
        s
    } else {
        let mut s = upper_hex_string(n / 16);
        push_char(&mut s, c);
        s
    }
}

fn upper_hex4(n: u32) -> (s: String)
    ensures
        s@ == hex4(n as nat),
{
    let t = upper_hex_string(n);
    let tc = crate::text::chars_of(t.as_str());
    let mut s = String::new();
    let mut k: usize = tc.len();
    while k < 4
        invariant
            tc.len() <= k <= 4 || (tc.len() > 4 && k == tc.len()),
            s@ == zeros((k - tc.len()) as nat),
        decreases 4 - k,
    {
        push_char(&mut s, '0');
        k = k + 1;
    }
    push_str(&mut s, t.as_str());
    s
}

/// What scanning a piece of text gives: the text read and where it ends,
/// or a message and the character the error is reported at.
pub type Lexed = Result<(Seq<char>, int), (Seq<char>, int)>;

/// `p` followed by what `r` read.
pub open spec fn prepend(r: Lexed, p: Seq<char>) -> Lexed {
    match r {
        Ok((t, e)) => Ok((p + t, e)),
        Err(x) => Err(x),
    }
}

pub proof fn lemma_prepend_twice(r: Lexed, p: Seq<char>, q: Seq<char>)
    ensures
        prepend(prepend(r, q), p) == prepend(r, p + q),
{
    if let Ok((t, e)) = r {
        assert(p + (q + t) =~= (p + q) + t);
    }
}

/// The body of a basic string from `j`, up to and including the closing quote.
#[verifier::opaque]
pub open spec fn basic_body(s: Seq<char>, j: int) -> Lexed
    decreases s.len() - j,
{
    if j < 0 || j >= s.len() || s[j] == '\n' {
        Err(("unterminated basic string"@, j))
    } else if s[j] == '"' {
        Ok((seq![], j + 1))
    } else if s[j] == '\\' {
        match escape(s, j + 1) {
            Err(x) => Err(x),
            Ok((t, k)) => if j < k <= s.len() {
                prepend(basic_body(s, k), t)
            } else {
                Err((seq![], k))
            },
        }
    } else {
        prepend(basic_body(s, j + 1), seq![s[j]])
    }
}

/// One step of a basic string.
pub proof fn lemma_basic_step(s: Seq<char>, j: int)
    requires
        0 <= j,
    ensures
        (j >= s.len() || s[j] == '\n') ==> basic_body(s, j) == Err::<(Seq<char>, int), (Seq<char>, int)>(("unterminated basic string"@, j)),
        (j < s.len() && s[j] == '"') ==> basic_body(s, j) == Ok::<(Seq<char>, int), (Seq<char>, int)>((seq![], j + 1)),
        (j < s.len() && s[j] == '\\') ==> (match escape(s, j + 1) {
            Err(x) => basic_body(s, j) == Err::<(Seq<char>, int), (Seq<char>, int)>(x),
            Ok((t, k)) => basic_body(s, j) == prepend(basic_body(s, k), t),
        }),
        (j < s.len() && s[j] != '\n' && s[j] != '"' && s[j] != '\\') ==> basic_body(s, j) == prepend(
            basic_body(s, j + 1),
            seq![s[j]],
        ),
{
    reveal(basic_body);
    lemma_escape_bounds(s, j + 1);
}

/// The body of a literal string from `j`, up to and including the closing quote.
#[verifier::opaque]
pub open spec fn literal_body(s: Seq<char>, j: int) -> Lexed
    decreases s.len() - j,
{
    if j < 0 || j >= s.len() || s[j] == '\n' {
        Err(("unterminated literal string"@, j))
    } else if s[j] == '\'' {
        Ok((seq![], j + 1))
    } else {
        prepend(literal_body(s, j + 1), seq![s[j]])
    }
}

pub open spec fn three_at(s: Seq<char>, j: int, q: char) -> bool {
    0 <= j && j + 2 < s.len() && s[j] == q && s[j + 1] == q && s[j + 2] == q
}

/// After an opening `"""` or `'''` ending before `j`: a line break right
/// after the delimiter is not part of the string.
pub open spec fn skip_first_newline(s: Seq<char>, j: int) -> int {
    if 0 <= j && j + 1 < s.len() && s[j] == '\r' && s[j + 1] == '\n' {
        j + 2
    } else if 0 <= j && j < s.len() && s[j] == '\n' {
        j + 1
    } else {
        j
    }
}

pub open spec fn is_line_space(c: char) -> bool {
    c == ' ' || c == '\t' || c == '\r'
}

pub open spec fn line_space() -> spec_fn(char) -> bool {
    |c: char| is_line_space(c)
}

pub open spec fn trivia_space() -> spec_fn(char) -> bool {
    |c: char| is_trivia_space(c)
}

/// The body of a multi-line basic string from `j`, up to and including the
/// closing delimiter. A backslash at the end of a line swallows the line
/// break and the whitespace after it.
#[verifier::opaque]
pub open spec fn multiline_basic_body(s: Seq<char>, j: int) -> Lexed
    decreases s.len() - j,
{
    if j < 0 {
        Err((seq![], j))
    } else if three_at(s, j, '"') {
        Ok((seq![], j + 3))
    } else if j >= s.len() {
        Err(("unterminated multi-line basic string"@, j))
    } else if s[j] == '\\' {
        let la = skip_while(s, j + 1, line_space());
        if la < s.len() && s[la] == '\n' {
            let next = skip_while(s, j + 1, trivia_space());
            if j < next <= s.len() {
                multiline_basic_body(s, next)
            } else {
                Err((seq![], next))
            }
        } else {
            match escape(s, j + 1) {
                Err(x) => Err(x),
                Ok((t, k)) => if j < k <= s.len() {
                    prepend(multiline_basic_body(s, k), t)
                } else {
                    Err((seq![], k))
                },
            }
        }
    } else {
        prepend(multiline_basic_body(s, j + 1), seq![s[j]])
    }
}

/// The body of a multi-line literal string from `j`, up to and including the
/// closing delimiter.
#[verifier::opaque]
pub open spec fn multiline_literal_body(s: Seq<char>, j: int) -> Lexed
    decreases s.len() - j,
{
    if j < 0 {
        Err((seq![], j))
    } else if three_at(s, j, '\'') {
        Ok((seq![], j + 3))
    } else if j >= s.len() {
        Err(("unterminated multi-line literal string"@, j))
    } else {
        prepend(multiline_literal_body(s, j + 1), seq![s[j]])
    }
}

/// The string starting at `i`, in whichever of the four forms it is.
pub open spec fn string_at(s: Seq<char>, i: int) -> Lexed {
    if three_at(s, i, '"') {
        multiline_basic_body(s, skip_first_newline(s, i + 3))
    } else if 0 <= i < s.len() && s[i] == '"' {
        basic_body(s, i + 1)
    } else if three_at(s, i, '\'') {
        multiline_literal_body(s, skip_first_newline(s, i + 3))
    } else if 0 <= i < s.len() && s[i] == '\'' {
        literal_body(s, i + 1)
    } else {
        Err(("expected a string"@, i))
    }
}

/// What the result of a scan says, for the parser that made it.
pub open spec fn lexed_as(r: Result<String, Error>, p: Parser, s: Seq<char>, expected: Lexed) -> bool {
    match expected {
        Ok((v, e)) => r matches Ok(t) && t@ == v && p.at() == e,
        Err((m, k)) => r matches Err(err) && error_view(err) == error_at(s, k, m),
    }
}

impl Parser {
    /// The escape whose letter is at the cursor, appended to `out`.
    fn parse_escape(&mut self, out: &mut String) -> (r: Result<(), Error>)
        requires
            old(self).inv(),
        ensures
            final(self).inv(),
            final(self).text() == old(self).text(),
            old(self).at() <= final(self).at(),
            final(self).explicit_tables == old(self).explicit_tables,
            final(self).array_tables == old(self).array_tables,
            final(self).dotted_tables == old(self).dotted_tables,
            match escape(old(self).text(), old(self).at()) {
                Ok((t, k)) => r is Ok && final(self).at() == k && final(out)@ == old(out)@ + t,
                Err((m, k)) => r matches Err(e) && error_view(e) == error_at(old(self).text(), k, m),
            },
    {
        let c = match self.peek() {
            Some(c) => c,
            None => {
                return Err(self.error_here(owned("unterminated escape sequence")));
            },
        };
        self.bump();
        if c == 'b' {
            push_char(out, '\u{8}');
        } else if c == 't' {
            push_char(out, '\t');
        } else if c == 'n' {
            push_char(out, '\n');
        } else if c == 'f' {
            push_char(out, '\u{c}');
        } else if c == 'r' {
            push_char(out, '\r');
        } else if c == '"' {
            push_char(out, '"');
        } else if c == '\\' {
            push_char(out, '\\');
        } else if c == 'u' {
            return self.parse_unicode_escape(out, 4);
        } else if c == 'U' {
            return self.parse_unicode_escape(out, 8);
        } else {
            let mut m = owned("unknown escape sequence `\\");
            push_char(&mut m, lead_char(c));
            push_str(&mut m, "`");
            return Err(self.error_here(m));
        }
        Ok(())
    }

    fn parse_basic_string(&mut self) -> (r: Result<String, Error>)
        requires
            old(self).inv(),
            old(self).at() < old(self).text().len(),
            old(self).text()[old(self).at()] == '"',
        ensures
            final(self).inv(),
            final(self).text() == old(self).text(),
            old(self).at() <= final(self).at(),
            final(self).explicit_tables == old(self).explicit_tables,
            final(self).array_tables == old(self).array_tables,
            final(self).dotted_tables == old(self).dotted_tables,
            lexed_as(r, *final(self), old(self).text(), basic_body(old(self).text(), old(self).at() + 1)),
    {
        let ghost s = self.text();
        let ghost j0 = self.at() + 1;
        self.bump();
        let mut out = String::new();
        loop
            invariant
                self.inv(),
                self.text() == s,
                s == old(self).text(),
                j0 == old(self).at() + 1,
                j0 <= self.at(),
                prepend(basic_body(s, self.at()), out@) == basic_body(s, j0),
                self.explicit_tables == old(self).explicit_tables,
                self.array_tables == old(self).array_tables,
                self.dotted_tables == old(self).dotted_tables,
            decreases s.len() - self.at(),
        {
            let ghost here = self.at();
            proof {
                lemma_basic_step(s, here);
            }
            match self.peek() {
                None => {
                    return Err(self.error_here(owned("unterminated basic string")));
                },
                Some(c) => {
                    if c == '\n' {
                        return Err(self.error_here(owned("unterminated basic string")));
                    } else if c == '"' {
                        self.bump();
                        assert(out@ + seq![] =~= out@);
                        return Ok(out);
                    } else if c == '\\' {
                        self.bump();
                        let ghost before = out@;
                        proof {
                            lemma_escape_bounds(s, here + 1);
                        }
                        proof {
                            lemma_basic_step(s, here);
                        }
                        self.parse_escape(&mut out)?;
                        proof {
                            let (t, k) = escape(s, here + 1)->Ok_0;
                            lemma_prepend_twice(basic_body(s, k), before, t);
                            assert(self.at() == k);
                            assert(out@ == before + t);
                            assert(basic_body(s, here) == prepend(basic_body(s, k), t));
                            assert(prepend(basic_body(s, self.at()), out@) == basic_body(s, j0));
                        }
                    } else {
                        self.bump();
                        let ghost before = out@;
                        push_char(&mut out, c);
                        proof {
                            lemma_prepend_twice(basic_body(s, here + 1), before, seq![c]);
                            assert(before.push(c) =~= before + seq![c]);
                            assert(basic_body(s, here) == prepend(basic_body(s, here + 1), seq![c]));
                            assert(prepend(basic_body(s, self.at()), out@) == basic_body(s, j0));
                        }
                    }
                },
            }
        }
    }
}

/// The first UTF-8 byte of `c`, read as a character.
fn lead_char(c: char) -> (r: char)
    ensures
        r == lead_byte(c) as char,
{
    let v = c as u32;
    let b: u32 = if v < 0x80 {
        v
    } else if v < 0x800 {
        0xC0 + v / 64
    } else if v < 0x10000 {
        0xE0 + v / 4096
    } else {
        0xF0 + v / 262144
    };
    (b as u8) as char
}

pub proof fn lemma_literal_step(s: Seq<char>, j: int)
    requires
        0 <= j,
    ensures
        (j >= s.len() || s[j] == '\n') ==> literal_body(s, j) == Err::<(Seq<char>, int), (Seq<char>, int)>(("unterminated literal string"@, j)),
        (j < s.len() && s[j] == '\'') ==> literal_body(s, j) == Ok::<(Seq<char>, int), (Seq<char>, int)>((seq![], j + 1)),
        (j < s.len() && s[j] != '\n' && s[j] != '\'') ==> literal_body(s, j) == prepend(
            literal_body(s, j + 1),
            seq![s[j]],
        ),
{
    reveal(literal_body);
}

pub proof fn lemma_multiline_basic_step(s: Seq<char>, j: int)
    requires
        0 <= j,
    ensures
        three_at(s, j, '"') ==> multiline_basic_body(s, j) == Ok::<(Seq<char>, int), (Seq<char>, int)>((seq![], j + 3)),
        (!three_at(s, j, '"') && j >= s.len()) ==> multiline_basic_body(s, j) == Err::<(Seq<char>, int), (Seq<char>, int)>(
            ("unterminated multi-line basic string"@, j),
        ),
        (!three_at(s, j, '"') && j < s.len() && s[j] == '\\') ==> ({
            let la = skip_while(s, j + 1, line_space());
            if la < s.len() && s[la] == '\n' {
                multiline_basic_body(s, j) == multiline_basic_body(s, skip_while(s, j + 1, trivia_space()))
            } else {
                match escape(s, j + 1) {
                    Err(x) => multiline_basic_body(s, j) == Err::<(Seq<char>, int), (Seq<char>, int)>(x),
                    Ok((t, k)) => multiline_basic_body(s, j) == prepend(multiline_basic_body(s, k), t),
                }
            }
        }),
        (!three_at(s, j, '"') && j < s.len() && s[j] != '\\') ==> multiline_basic_body(s, j) == prepend(
            multiline_basic_body(s, j + 1),
            seq![s[j]],
        ),
{
    reveal(multiline_basic_body);
    lemma_escape_bounds(s, j + 1);
    if j < s.len() {
        lemma_skip_while(s, j + 1, trivia_space());
    }
}

pub proof fn lemma_multiline_literal_step(s: Seq<char>, j: int)
    requires
        0 <= j,
    ensures
        three_at(s, j, '\'') ==> multiline_literal_body(s, j) == Ok::<(Seq<char>, int), (Seq<char>, int)>((seq![], j + 3)),
        (!three_at(s, j, '\'') && j >= s.len()) ==> multiline_literal_body(s, j) == Err::<(Seq<char>, int), (Seq<char>, int)>(
            ("unterminated multi-line literal string"@, j),
        ),
        (!three_at(s, j, '\'') && j < s.len()) ==> multiline_literal_body(s, j) == prepend(
            multiline_literal_body(s, j + 1),
            seq![s[j]],
        ),
{
    reveal(multiline_literal_body);
}

impl Parser {
    fn parse_literal_string(&mut self) -> (r: Result<String, Error>)
        requires
            old(self).inv(),
            old(self).at() < old(self).text().len(),
            old(self).text()[old(self).at()] == '\'',
        ensures
            final(self).inv(),
            final(self).text() == old(self).text(),
            old(self).at() <= final(self).at(),
            final(self).explicit_tables == old(self).explicit_tables,
            final(self).array_tables == old(self).array_tables,
            final(self).dotted_tables == old(self).dotted_tables,
            lexed_as(r, *final(self), old(self).text(), literal_body(old(self).text(), old(self).at() + 1)),
    {
        let ghost s = self.text();
        let ghost j0 = self.at() + 1;
        self.bump();
        let mut out = String::new();
        loop
            invariant
                self.inv(),
                self.text() == s,
                s == old(self).text(),
                j0 == old(self).at() + 1,
                j0 <= self.at(),
                prepend(literal_body(s, self.at()), out@) == literal_body(s, j0),
                self.explicit_tables == old(self).explicit_tables,
                self.array_tables == old(self).array_tables,
                self.dotted_tables == old(self).dotted_tables,
            decreases s.len() - self.at(),
        {
            let ghost here = self.at();
            proof {
                lemma_literal_step(s, here);
            }
            match self.peek() {
                None => {
                    return Err(self.error_here(owned("unterminated literal string")));
                },
                Some(c) => {
                    if c == '\n' {
                        return Err(self.error_here(owned("unterminated literal string")));
                    } else if c == '\'' {
                        self.bump();
                        assert(out@ + seq![] =~= out@);
                        return Ok(out);
                    } else {
                        self.bump();
                        let ghost before = out@;
                        push_char(&mut out, c);
                        proof {
                            lemma_prepend_twice(literal_body(s, here + 1), before, seq![c]);
                            assert(before.push(c) =~= before + seq![c]);
                        }
                    }
                },
            }
        }
    }

    /// Step over the line break that may follow an opening delimiter.
    fn skip_first_newline(&mut self)
        requires
            old(self).inv(),
        ensures
            final(self).inv(),
            final(self).text() == old(self).text(),
            old(self).at() <= final(self).at(),
            final(self).at() == skip_first_newline(old(self).text(), old(self).at()),
            final(self).explicit_tables == old(self).explicit_tables,
            final(self).array_tables == old(self).array_tables,
            final(self).dotted_tables == old(self).dotted_tables,
    {
        if self.peek() == Some('\r') && self.peek_at(1) == Some('\n') {
            self.bump();
            self.bump();
        } else if self.peek() == Some('\n') {
            self.bump();
        }
    }

    fn at_three(&self, q: char) -> (r: bool)
        requires
            self.inv(),
        ensures
            r == three_at(self.text(), self.at(), q),
    {
        self.peek() == Some(q) && self.peek_at(1) == Some(q) && self.peek_at(2) == Some(q)
    }

    fn parse_multiline_basic_string(&mut self) -> (r: Result<String, Error>)
        requires
            old(self).inv(),
            three_at(old(self).text(), old(self).at(), '"'),
        ensures
            final(self).inv(),
            final(self).text() == old(self).text(),
            old(self).at() <= final(self).at(),
            final(self).explicit_tables == old(self).explicit_tables,
            final(self).array_tables == old(self).array_tables,
            final(self).dotted_tables == old(self).dotted_tables,
            lexed_as(
                r,
                *final(self),
                old(self).text(),
                multiline_basic_body(old(self).text(), skip_first_newline(old(self).text(), old(self).at() + 3)),
            ),
    {
        let ghost s = self.text();
        self.bump_n(3);
        self.skip_first_newline();
        let ghost j0 = self.at();
        let mut out = String::new();
        loop
            invariant
                self.inv(),
                self.text() == s,
                s == old(self).text(),
                j0 == skip_first_newline(s, old(self).at() + 3),
                j0 <= self.at(),
                prepend(multiline_basic_body(s, self.at()), out@) == multiline_basic_body(s, j0),
                self.explicit_tables == old(self).explicit_tables,
                self.array_tables == old(self).array_tables,
                self.dotted_tables == old(self).dotted_tables,
            decreases s.len() - self.at(),
        {
            let ghost here = self.at();
            proof {
                lemma_multiline_basic_step(s, here);
            }
            if self.at_three('"') {
                self.bump_n(3);
                assert(out@ + seq![] =~= out@);
                return Ok(out);
            }
            match self.peek() {
                None => {
                    return Err(self.error_here(owned("unterminated multi-line basic string")));
                },
                Some(c) => {
                    if c == '\\' {
                        // A backslash at the end of a line trims the following whitespace.
                        let mut lookahead = self.pos + 1;
                        while lookahead < self.chars.len() && (self.chars[lookahead] == ' '
                            || self.chars[lookahead] == '\t' || self.chars[lookahead] == '\r')
                            invariant
                                self.inv(),
                                self.text() == s,
                                here + 1 <= lookahead <= s.len(),
                                here < s.len(),
                                skip_while(s, lookahead as int, line_space()) == skip_while(s, here + 1, line_space()),
                            decreases s.len() - lookahead,
                        {
                            assert(line_space()(s[lookahead as int]));
                            assert(skip_while(s, lookahead as int, line_space()) == skip_while(s, lookahead + 1, line_space()));
                            lookahead = lookahead + 1;
                        }
                        proof {
                            assert(skip_while(s, lookahead as int, line_space()) == lookahead as int);
                        }
                        if lookahead < self.chars.len() && self.chars[lookahead] == '\n' {
                            self.bump();
                            let ghost from = self.at();
                            while self.pos < self.chars.len() && (self.chars[self.pos] == ' '
                                || self.chars[self.pos] == '\t' || self.chars[self.pos] == '\r'
                                || self.chars[self.pos] == '\n')
                                invariant
                                    self.inv(),
                                    self.text() == s,
                                    from <= self.at(),
                                    from == here + 1,
                                    skip_while(s, self.at(), trivia_space()) == skip_while(s, from, trivia_space()),
                                    self.explicit_tables == old(self).explicit_tables,
                                    self.array_tables == old(self).array_tables,
                                    self.dotted_tables == old(self).dotted_tables,
                                decreases s.len() - self.at(),
                            {
                                let ghost b = self.at();
                                assert(trivia_space()(s[b]));
                                self.bump();
                                assert(skip_while(s, b, trivia_space()) == skip_while(s, b + 1, trivia_space()));
                            }
                            proof {
                                assert(skip_while(s, self.at(), trivia_space()) == self.at());
                            }
                        } else {
                            self.bump();
                            let ghost before = out@;
                            self.parse_escape(&mut out)?;
                            proof {
                                let (t, k) = escape(s, here + 1)->Ok_0;
                                lemma_prepend_twice(multiline_basic_body(s, k), before, t);
                            }
                        }
                    } else {
                        self.bump();
                        let ghost before = out@;
                        push_char(&mut out, c);
                        proof {
                            lemma_prepend_twice(multiline_basic_body(s, here + 1), before, seq![c]);
                            assert(before.push(c) =~= before + seq![c]);
                        }
                    }
                },
            }
        }
    }

    fn parse_multiline_literal_string(&mut self) -> (r: Result<String, Error>)
        requires
            old(self).inv(),
            three_at(old(self).text(), old(self).at(), '\''),
        ensures
            final(self).inv(),
            final(self).text() == old(self).text(),
            old(self).at() <= final(self).at(),
            final(self).explicit_tables == old(self).explicit_tables,
            final(self).array_tables == old(self).array_tables,
            final(self).dotted_tables == old(self).dotted_tables,
            lexed_as(
                r,
                *final(self),
                old(self).text(),
                multiline_literal_body(old(self).text(), skip_first_newline(old(self).text(), old(self).at() + 3)),
            ),
    {
        let ghost s = self.text();
        self.bump_n(3);
        self.skip_first_newline();
        let ghost j0 = self.at();
        let mut out = String::new();
        loop
            invariant
                self.inv(),
                self.text() == s,
                s == old(self).text(),
                j0 == skip_first_newline(s, old(self).at() + 3),
                j0 <= self.at(),
                prepend(multiline_literal_body(s, self.at()), out@) == multiline_literal_body(s, j0),
                self.explicit_tables == old(self).explicit_tables,
                self.array_tables == old(self).array_tables,
                self.dotted_tables == old(self).dotted_tables,
            decreases s.len() - self.at(),
        {
            let ghost here = self.at();
            proof {
                lemma_multiline_literal_step(s, here);
            }
            if self.at_three('\'') {
                self.bump_n(3);
                assert(out@ + seq![] =~= out@);
                return Ok(out);
            }
            match self.peek() {
                None => {
                    return Err(self.error_here(owned("unterminated multi-line literal string")));
                },
                Some(c) => {
                    self.bump();
                    let ghost before = out@;
                    push_char(&mut out, c);
                    proof {
                        lemma_prepend_twice(multiline_literal_body(s, here + 1), before, seq![c]);
                        assert(before.push(c) =~= before + seq![c]);
                    }
                },
            }
        }
    }

    /// A string in any of the four forms.
    fn parse_string(&mut self) -> (r: Result<String, Error>)
        requires
            old(self).inv(),
        ensures
            final(self).inv(),
            final(self).text() == old(self).text(),
            old(self).at() <= final(self).at(),
            final(self).explicit_tables == old(self).explicit_tables,
            final(self).array_tables == old(self).array_tables,
            final(self).dotted_tables == old(self).dotted_tables,
            lexed_as(r, *final(self), old(self).text(), string_at(old(self).text(), old(self).at())),
    {
        if self.at_three('"') {
            self.parse_multiline_basic_string()
        } else if self.peek() == Some('"') {
            self.parse_basic_string()
        } else if self.at_three('\'') {
            self.parse_multiline_literal_string()
        } else if self.peek() == Some('\'') {
            self.parse_literal_string()
        } else {
            Err(self.error_here(owned("expected a string")))
        }
    }
}

// ---------------------------------------------------------------- numbers

pub open spec fn number_char() -> spec_fn(char) -> bool {
    |c: char| is_number_char(c)
}

pub open spec fn ascii_digit() -> spec_fn(char) -> bool {
    |c: char| crate::text::is_ascii_digit(c)
}

/// How many times `c` occurs in `t`.
pub open spec fn count_of(t: Seq<char>, c: char) -> nat
    decreases t.len(),
{
    if t.len() == 0 {
        0
    } else {
        count_of(t.drop_last(), c) + if t.last() == c { 1nat } else { 0nat }
    }
}

/// `t` without its `_` separators.
pub open spec fn without_underscores(t: Seq<char>) -> Seq<char>
    decreases t.len(),
{
    if t.len() == 0 {
        seq![]
    } else if t.last() == '_' {
        without_underscores(t.drop_last())
    } else {
        without_underscores(t.drop_last()).push(t.last())
    }
}

/// `char::to_digit` for the radixes used here.
pub open spec fn radix_digit(c: char, radix: nat) -> Option<nat> {
    let v: nat = if crate::text::is_ascii_digit(c) {
        (c as nat - '0' as nat) as nat
    } else if 'a' <= c && c <= 'z' {
        (c as nat - 'a' as nat + 10) as nat
    } else if 'A' <= c && c <= 'Z' {
        (c as nat - 'A' as nat + 10) as nat
    } else {
        99
    };
    if v < radix {
        Some(v)
    } else {
        None
    }
}

pub open spec fn all_radix_digits(d: Seq<char>, radix: nat) -> bool {
    forall|k: int| 0 <= k < d.len() ==> (#[trigger] radix_digit(d[k], radix)) is Some
}

/// The value of digits all valid in `radix`.
pub open spec fn radix_value(d: Seq<char>, radix: nat) -> nat
    decreases d.len(),
{
    if d.len() == 0 {
        0
    } else {
        radix_value(d.drop_last(), radix) * radix + match radix_digit(d.last(), radix) {
            Some(v) => v,
            None => 0,
        }
    }
}

/// What `i64::from_str_radix` gives.
pub open spec fn i64_of(t: Seq<char>, radix: nat) -> Option<i64> {
    if t.len() == 0 || ((t[0] == '+' || t[0] == '-') && t.len() == 1) {
        None
    } else {
        let negative = t[0] == '-';
        let d = if t[0] == '+' || t[0] == '-' { t.skip(1) } else { t };
        let v: int = if negative { -(radix_value(d, radix) as int) } else { radix_value(d, radix) as int };
        if all_radix_digits(d, radix) && i64::MIN <= v <= i64::MAX {
            Some(v as i64)
        } else {
            None
        }
    }
}

pub open spec fn lower_ascii(t: Seq<char>) -> Seq<char> {
    t.map_values(|c: char| if 'A' <= c && c <= 'Z' { ((c as u32) + 32) as char } else { c })
}

/// The decimal form `f64::from_str` accepts: digits, an optional fraction
/// and an optional exponent, with at least one digit before the exponent.
pub open spec fn decimal_syntax(u: Seq<char>) -> bool {
    let a = skip_while(u, 0, ascii_digit());
    let dot = a < u.len() && u[a] == '.';
    let b = if dot { skip_while(u, a + 1, ascii_digit()) } else { a };
    let digits = if dot { a + (b - (a + 1)) } else { a };
    digits > 0 && (b == u.len() || ((u[b] == 'e' || u[b] == 'E') && ({
        let c = if b + 1 < u.len() && (u[b + 1] == '+' || u[b + 1] == '-') { b + 2 } else { b + 1 };
        let d = skip_while(u, c, ascii_digit());
        d == u.len() && d > c
    })))
}

/// Whether `f64::from_str` accepts `t`.
pub open spec fn float_syntax(t: Seq<char>) -> bool {
    let u = if t.len() > 0 && (t[0] == '+' || t[0] == '-') { t.skip(1) } else { t };
    lower_ascii(u) == "inf"@ || lower_ascii(u) == "infinity"@ || lower_ascii(u) == "nan"@ || decimal_syntax(u)
}

fn radix_digit_of(c: char, radix: u32) -> (r: Option<u32>)
    requires
        2 <= radix <= 16,
    ensures
        match radix_digit(c, radix as nat) {
            Some(v) => r == Some(v as u32),
            None => r is None,
        },
{
    let v: u32 = if '0' <= c && c <= '9' {
        (c as u32) - ('0' as u32)
    } else if 'a' <= c && c <= 'z' {
        (c as u32) - ('a' as u32) + 10
    } else if 'A' <= c && c <= 'Z' {
        (c as u32) - ('A' as u32) + 10
    } else {
        99
    };
    if v < radix {
        Some(v)
    } else {
        None
    }
}

pub proof fn lemma_radix_value_grows(d: Seq<char>, radix: nat, k: int)
    requires
        radix >= 1,
        0 <= k <= d.len(),
    ensures
        radix_value(d.take(k), radix) <= radix_value(d, radix),
    decreases d.len() - k,
{
    if k < d.len() {
        lemma_radix_value_grows(d, radix, k + 1);
        let t = d.take(k + 1);
        assert(t.drop_last() =~= d.take(k));
        let prev = radix_value(d.take(k), radix);
        assert(prev * radix >= prev) by (nonlinear_arith)
            requires
                radix >= 1,
        ;
    } else {
        assert(d.take(k) =~= d);
    }
}

/// `i64::from_str_radix`.
fn parse_i64(t: &[char], radix: u32) -> (r: Option<i64>)
    requires
        radix == 2 || radix == 8 || radix == 10 || radix == 16,
    ensures
        r == i64_of(t@, radix as nat),
{
    if t.len() == 0 || ((t[0] == '+' || t[0] == '-') && t.len() == 1) {
        return None;
    }
    let negative = t[0] == '-';
    let start: usize = if t[0] == '+' || t[0] == '-' { 1 } else { 0 };
    let ghost d = t@.skip(start as int);
    let mut k: usize = start;
    while k < t.len()
        invariant
            start <= k <= t.len(),
            d == t@.skip(start as int),
            t@.len() > 0,
            !((t@[0] == '+' || t@[0] == '-') && t@.len() == 1),
            start == (if t@[0] == '+' || t@[0] == '-' { 1usize } else { 0usize }),
            negative == (t@[0] == '-'),
            2 <= radix <= 16,
            forall|m: int| 0 <= m < k - start ==> (#[trigger] radix_digit(d[m], radix as nat)) is Some,
        decreases t.len() - k,
    {
        if radix_digit_of(t[k], radix).is_none() {
            assert(radix_digit(d[k - start], radix as nat) is None);
            assert(!all_radix_digits(d, radix as nat));
            return None;
        }
        k = k + 1;
    }
    assert(all_radix_digits(d, radix as nat));
    let limit: u128 = 0x8000_0000_0000_0000;
    let mut acc: u128 = 0;
    let mut k: usize = start;
    while k < t.len()
        invariant
            start <= k <= t.len(),
            d == t@.skip(start as int),
            t@.len() > 0,
            !((t@[0] == '+' || t@[0] == '-') && t@.len() == 1),
            start == (if t@[0] == '+' || t@[0] == '-' { 1usize } else { 0usize }),
            negative == (t@[0] == '-'),
            2 <= radix <= 16,
            all_radix_digits(d, radix as nat),
            acc == radix_value(d.take(k - start), radix as nat),
            acc <= limit,
            limit == 0x8000_0000_0000_0000,
        decreases t.len() - k,
    {
        let v = match radix_digit_of(t[k], radix) {
            Some(v) => v,
            None => {
                assert(radix_digit(d[k - start], radix as nat) is Some);
                return None;
            },
        };
        proof {
            let p = d.take(k - start + 1);
            assert(p.drop_last() =~= d.take(k - start));
            assert(p.last() == d[k - start]);
        }
        assert(acc * (radix as u128) <= 16 * 0x8000_0000_0000_0000) by (nonlinear_arith)
            requires
                acc <= 0x8000_0000_0000_0000,
                radix <= 16,
        ;
        acc = acc * (radix as u128) + (v as u128);
        proof {
            assert(acc == radix_value(d.take(k - start + 1), radix as nat));
        }
        if acc > limit {
            proof {
                lemma_radix_value_grows(d, radix as nat, k - start + 1);
                assert(radix_value(d, radix as nat) > 0x8000_0000_0000_0000);
                if start == 0 {
                    assert(d =~= t@);
                }
            }
            return None;
        }
        k = k + 1;
    }
    proof {
        assert(d.take(t.len() - start) =~= d);
        assert(acc == radix_value(d, radix as nat));
        if start == 0 {
            assert(d =~= t@);
        }
    }
    if negative {
        if acc == limit {
            Some(i64::MIN)
        } else {
            Some(-(acc as i64))
        }
    } else {
        if acc == limit {
            None
        } else {
            Some(acc as i64)
        }
    }
}

/// The first index at or after `i` that is not an ASCII digit.
fn digits_end(u: &[char], i: usize) -> (e: usize)
    requires
        i <= u@.len(),
    ensures
        e as int == skip_while(u@, i as int, ascii_digit()),
{
    let mut e = i;
    while e < u.len() && '0' <= u[e] && u[e] <= '9'
        invariant
            i <= e <= u@.len(),
            skip_while(u@, e as int, ascii_digit()) == skip_while(u@, i as int, ascii_digit()),
        decreases u.len() - e,
    {
        assert(ascii_digit()(u@[e as int]));
        assert(skip_while(u@, e as int, ascii_digit()) == skip_while(u@, e + 1, ascii_digit()));
        e = e + 1;
    }
    e
}

fn decimal_syntax_of(u: &[char]) -> (r: bool)
    ensures
        r == decimal_syntax(u@),
{
    proof {
        lemma_skip_while(u@, 0, ascii_digit());
    }
    let a = digits_end(u, 0);
    let dot = a < u.len() && u[a] == '.';
    if dot {
        proof {
            lemma_skip_while(u@, a + 1, ascii_digit());
        }
    }
    let b = if dot { digits_end(u, a + 1) } else { a };
    let digits: usize = if dot { a + (b - (a + 1)) } else { a };
    if digits == 0 {
        return false;
    }
    if b == u.len() {
        return true;
    }
    if !(u[b] == 'e' || u[b] == 'E') {
        return false;
    }
    let c = if b + 1 < u.len() && (u[b + 1] == '+' || u[b + 1] == '-') { b + 2 } else { b + 1 };
    proof {
        lemma_skip_while(u@, c as int, ascii_digit());
    }
    let d = digits_end(u, c);
    d == u.len() && d > c
}

fn lower_is(u: &[char], word: &str) -> (r: bool)
    ensures
        r == (lower_ascii(u@) == word@),
{
    let w = crate::text::chars_of(word);
    if u.len() != w.len() {
        proof {
            assert(lower_ascii(u@).len() != word@.len());
        }
        return false;
    }
    let mut k: usize = 0;
    while k < u.len()
        invariant
            k <= u@.len(),
            u@.len() == w@.len(),
            w@ == word@,
            forall|m: int| 0 <= m < k ==> lower_ascii(u@)[m] == w@[m],
        decreases u.len() - k,
    {
        let c = u[k];
        let l = if 'A' <= c && c <= 'Z' { ((c as u8) + 32) as char } else { c };
        proof {
            if 'A' <= c && c <= 'Z' {
                assert(((c as u32) + 32) as char == ((c as u8) + 32) as char);
            }
        }
        if l != w[k] {
            assert(lower_ascii(u@)[k as int] != word@[k as int]);
            return false;
        }
        k = k + 1;
    }
    assert(lower_ascii(u@) =~= word@);
    true
}

/// Whether `f64::from_str` accepts `t`.
fn float_syntax_of(t: &[char]) -> (r: bool)
    ensures
        r == float_syntax(t@),
{
    let u = if t.len() > 0 && (t[0] == '+' || t[0] == '-') {
        crate::text::chars_slice(t, 1, t.len())
    } else {
        crate::text::chars_slice(t, 0, t.len())
    };
    proof {
        if !(t@.len() > 0 && (t@[0] == '+' || t@[0] == '-')) {
            assert(u@ =~= t@);
        } else {
            assert(u@ =~= t@.skip(1));
        }
    }
    lower_is(u.as_slice(), "inf") || lower_is(u.as_slice(), "infinity") || lower_is(u.as_slice(), "nan")
        || decimal_syntax_of(u.as_slice())
}

fn count_char(t: &[char], c: char) -> (n: usize)
    ensures
        n == count_of(t@, c),
{
    let mut n: usize = 0;
    let mut k: usize = 0;
    while k < t.len()
        invariant
            k <= t@.len(),
            n == count_of(t@.take(k as int), c),
            n <= k,
        decreases t.len() - k,
    {
        proof {
            assert(t@.take(k + 1).drop_last() =~= t@.take(k as int));
        }
        if t[k] == c {
            n = n + 1;
        }
        k = k + 1;
    }
    assert(t@.take(t@.len() as int) =~= t@);
    n
}

fn strip_underscores(t: &[char]) -> (r: Vec<char>)
    ensures
        r@ == without_underscores(t@),
{
    let mut out: Vec<char> = Vec::new();
    let mut k: usize = 0;
    while k < t.len()
        invariant
            k <= t@.len(),
            out@ == without_underscores(t@.take(k as int)),
        decreases t.len() - k,
    {
        proof {
            assert(t@.take(k + 1).drop_last() =~= t@.take(k as int));
        }
        if t[k] != '_' {
            out.push(t[k]);
        }
        k = k + 1;
    }
    assert(t@.take(t@.len() as int) =~= t@);
    out
}

fn seq_has(t: &[char], c: char) -> (r: bool)
    ensures
        r == t@.contains(c),
{
    crate::text::chars_contain(t, c)
}

/// What the number text `raw` gives: its value, or the message to report.
pub open spec fn number_result(raw: Seq<char>, r: Result<crate::toml::Value, String>) -> bool {
    let cleaned = without_underscores(raw);
    if raw.contains(':') || (count_of(raw, '-') > 1 && !(raw.len() > 0 && raw[0] == '-')) {
        r matches Err(m) && m@ == "date-time values are not supported; quote the value as a string instead"@
    } else if crate::text::starts_with(cleaned, "0x"@) {
        match i64_of(cleaned.skip(2), 16) {
            Some(v) => r == Ok::<crate::toml::Value, String>(crate::toml::Value::Integer(v)),
            None => r matches Err(m) && m@ == "invalid hexadecimal integer `"@ + raw + "`"@,
        }
    } else if crate::text::starts_with(cleaned, "0o"@) {
        match i64_of(cleaned.skip(2), 8) {
            Some(v) => r == Ok::<crate::toml::Value, String>(crate::toml::Value::Integer(v)),
            None => r matches Err(m) && m@ == "invalid octal integer `"@ + raw + "`"@,
        }
    } else if crate::text::starts_with(cleaned, "0b"@) {
        match i64_of(cleaned.skip(2), 2) {
            Some(v) => r == Ok::<crate::toml::Value, String>(crate::toml::Value::Integer(v)),
            None => r matches Err(m) && m@ == "invalid binary integer `"@ + raw + "`"@,
        }
    } else if cleaned.contains('.') || cleaned.contains('e') || cleaned.contains('E') {
        if float_syntax(cleaned) {
            r matches Ok(crate::toml::Value::Float(f)) && f@ == cleaned
        } else {
            r matches Err(m) && m@ == "invalid float `"@ + raw + "`"@
        }
    } else {
        match i64_of(cleaned, 10) {
            Some(v) => r == Ok::<crate::toml::Value, String>(crate::toml::Value::Integer(v)),
            None => r matches Err(m) && m@ == "invalid integer `"@ + raw + "`"@,
        }
    }
}

/// The number `raw` stands for, with the message to report otherwise.
fn number_value(raw: &[char]) -> (r: Result<crate::toml::Value, String>)
    ensures
        number_result(raw@, r),
{
    let quoted = |prefix: &str| -> (m: String)
        ensures
            m@ == prefix@ + raw@ + "`"@,
        {
            let mut m = owned(prefix);
            let text = crate::text::string_from(raw);
            push_str(&mut m, text.as_str());
            push_str(&mut m, "`");
            m
        };
    if seq_has(raw, ':') || (count_char(raw, '-') > 1 && !(raw.len() > 0 && raw[0] == '-')) {
        return Err(owned("date-time values are not supported; quote the value as a string instead"));
    }
    let cleaned = strip_underscores(raw);
    let c = cleaned.as_slice();
    let prefixed = |a: char| -> (b: bool)
        ensures
            b == crate::text::starts_with(cleaned@, seq!['0', a]),
        {
            let r = c.len() >= 2 && c[0] == '0' && c[1] == a;
            proof {
                if c@.len() >= 2 {
                    if r {
                        assert(cleaned@.subrange(0, 2) =~= seq!['0', a]);
                    } else {
                        assert(cleaned@.subrange(0, 2)[0] == cleaned@[0]);
                        assert(cleaned@.subrange(0, 2)[1] == cleaned@[1]);
                    }
                }
            }
            r
        };
    proof {
        reveal_strlit("0x");
        reveal_strlit("0o");
        reveal_strlit("0b");
        assert("0x"@ =~= seq!['0', 'x']);
        assert("0o"@ =~= seq!['0', 'o']);
        assert("0b"@ =~= seq!['0', 'b']);
    }
    if prefixed('x') {
        let rest = crate::text::chars_slice(c, 2, c.len());
        assert(rest@ =~= cleaned@.skip(2));
        return match parse_i64(rest.as_slice(), 16) {
            Some(v) => Ok(crate::toml::Value::Integer(v)),
            None => Err(quoted("invalid hexadecimal integer `")),
        };
    }
    if prefixed('o') {
        let rest = crate::text::chars_slice(c, 2, c.len());
        assert(rest@ =~= cleaned@.skip(2));
        return match parse_i64(rest.as_slice(), 8) {
            Some(v) => Ok(crate::toml::Value::Integer(v)),
            None => Err(quoted("invalid octal integer `")),
        };
    }
    if prefixed('b') {
        let rest = crate::text::chars_slice(c, 2, c.len());
        assert(rest@ =~= cleaned@.skip(2));
        return match parse_i64(rest.as_slice(), 2) {
            Some(v) => Ok(crate::toml::Value::Integer(v)),
            None => Err(quoted("invalid binary integer `")),
        };
    }
    if seq_has(c, '.') || seq_has(c, 'e') || seq_has(c, 'E') {
        if float_syntax_of(c) {
            return Ok(crate::toml::Value::Float(crate::text::string_from(c)));
        } else {
            return Err(quoted("invalid float `"));
        }
    }
    match parse_i64(c, 10) {
        Some(v) => Ok(crate::toml::Value::Integer(v)),
        None => Err(quoted("invalid integer `")),
    }
}

pub open spec fn bare_key_char() -> spec_fn(char) -> bool {
    |c: char| is_bare_key_char(c)
}

pub open spec fn inline_space() -> spec_fn(char) -> bool {
    |c: char| is_inline_space(c)
}

/// `w` stands at `i` as a whole word.
pub open spec fn word_at(s: Seq<char>, i: int, w: Seq<char>) -> bool {
    &&& 0 <= i
    &&& i + w.len() <= s.len()
    &&& s.subrange(i, i + w.len()) == w
    &&& !(i + w.len() < s.len() && is_bare_key_char(s[i + w.len()]))
}

/// One key: quoted, literal or bare.
pub open spec fn key_segment(s: Seq<char>, i: int) -> Lexed {
    if 0 <= i < s.len() {
        if s[i] == '"' {
            basic_body(s, i + 1)
        } else if s[i] == '\'' {
            literal_body(s, i + 1)
        } else if is_bare_key_char(s[i]) {
            let e = skip_while(s, i, bare_key_char());
            Ok((s.subrange(i, e), e))
        } else {
            Err(("invalid key character "@ + shown_byte(lead_byte(s[i])), i))
        }
    } else {
        Err(("unexpected end of input while reading a key"@, i))
    }
}

pub type KeysLexed = Result<(Seq<Seq<char>>, int), (Seq<char>, int)>;

pub open spec fn prepend_key(r: KeysLexed, k: Seq<char>) -> KeysLexed {
    match r {
        Ok((ks, e)) => Ok((seq![k] + ks, e)),
        Err(x) => Err(x),
    }
}

/// The rest of a dotted key after a segment ending at `i`.
#[verifier::opaque]
pub open spec fn key_path_from(s: Seq<char>, i: int) -> KeysLexed
    decreases s.len() - i,
{
    let w = skip_while(s, i, inline_space());
    if 0 <= i <= w < s.len() && s[w] == '.' {
        let w2 = skip_while(s, w + 1, inline_space());
        match key_segment(s, w2) {
            Err(x) => Err(x),
            Ok((k, e)) => if i < e <= s.len() {
                prepend_key(key_path_from(s, e), k)
            } else {
                Err((seq![], e))
            },
        }
    } else {
        Ok((seq![], w))
    }
}

/// A dotted key starting at `i`: its segments, and where it ends (after
/// any spaces that follow it).
pub open spec fn key_path(s: Seq<char>, i: int) -> KeysLexed {
    match key_segment(s, i) {
        Err(x) => Err(x),
        Ok((k, e)) => prepend_key(key_path_from(s, e), k),
    }
}

pub proof fn lemma_key_segment_bounds(s: Seq<char>, i: int)
    requires
        0 <= i,
    ensures
        key_segment(s, i) matches Ok((k, e)) ==> i < e <= s.len(),
{
    reveal(basic_body);
    reveal(literal_body);
    if 0 <= i < s.len() {
        if s[i] == '"' {
            lemma_lexed_bounds_basic(s, i + 1);
        } else if s[i] == '\'' {
            lemma_lexed_bounds_literal(s, i + 1);
        } else if is_bare_key_char(s[i]) {
            lemma_skip_while(s, i, bare_key_char());
            assert(bare_key_char()(s[i]));
            lemma_skip_while(s, i + 1, bare_key_char());
        }
    }
}

pub proof fn lemma_lexed_bounds_basic(s: Seq<char>, j: int)
    requires
        0 <= j,
    ensures
        basic_body(s, j) matches Ok((t, e)) ==> j < e <= s.len(),
    decreases s.len() - j,
{
    lemma_basic_step(s, j);
    if j < s.len() && s[j] != '\n' && s[j] != '"' {
        if s[j] == '\\' {
            lemma_escape_bounds(s, j + 1);
            if let Ok((t, k)) = escape(s, j + 1) {
                lemma_lexed_bounds_basic(s, k);
            }
        } else {
            lemma_lexed_bounds_basic(s, j + 1);
        }
    }
}

pub proof fn lemma_lexed_bounds_literal(s: Seq<char>, j: int)
    requires
        0 <= j,
    ensures
        literal_body(s, j) matches Ok((t, e)) ==> j < e <= s.len(),
    decreases s.len() - j,
{
    lemma_literal_step(s, j);
    if j < s.len() && s[j] != '\n' && s[j] != '\'' {
        lemma_lexed_bounds_literal(s, j + 1);
    }
}

impl Parser {
    /// The number whose first character is at the cursor.
    fn parse_number(&mut self) -> (r: Result<crate::toml::Value, Error>)
        requires
            old(self).inv(),
        ensures
            final(self).inv(),
            final(self).text() == old(self).text(),
            old(self).at() <= final(self).at(),
            final(self).explicit_tables == old(self).explicit_tables,
            final(self).array_tables == old(self).array_tables,
            final(self).dotted_tables == old(self).dotted_tables,
            ({
                let s = old(self).text();
                let i = old(self).at();
                let e = skip_while(s, i, number_char());
                let raw = s.subrange(i, e);
                match r {
                    Ok(v) => number_result(raw, Ok(v)) && final(self).at() == e,
                    Err(err) => number_result(raw, Err(err.message)) && (err.line as nat, err.col as nat)
                        == position(s, i),
                }
            }),
    {
        let ghost s = self.text();
        let ghost i = self.at();
        let start = self.pos;
        let (line, col) = (self.line, self.col);
        while self.pos < self.chars.len() && (crate::text::ascii_alnum(self.chars[self.pos]) || self.chars[self.pos] == '_'
            || self.chars[self.pos] == '.' || self.chars[self.pos] == '+' || self.chars[self.pos] == '-'
            || self.chars[self.pos] == ':')
            invariant
                self.inv(),
                self.text() == s,
                i <= self.at(),
                start == i,
                skip_while(s, self.at(), number_char()) == skip_while(s, i, number_char()),
                self.explicit_tables == old(self).explicit_tables,
                self.array_tables == old(self).array_tables,
                self.dotted_tables == old(self).dotted_tables,
            decreases s.len() - self.at(),
        {
            let ghost b = self.at();
            assert(number_char()(s[b]));
            self.bump();
            assert(skip_while(s, b, number_char()) == skip_while(s, b + 1, number_char()));
        }
        proof {
            assert(skip_while(s, self.at(), number_char()) == self.at());
        }
        let raw = crate::text::chars_slice(self.chars.as_slice(), start, self.pos);
        match number_value(raw.as_slice()) {
            Ok(v) => Ok(v),
            Err(message) => Err(Error { message, line, col }),
        }
    }

    /// `word` at the cursor as a whole word; consumed if so.
    fn consume_word(&mut self, word: &str) -> (r: bool)
        requires
            old(self).inv(),
        ensures
            final(self).inv(),
            final(self).text() == old(self).text(),
            old(self).at() <= final(self).at(),
            r == word_at(old(self).text(), old(self).at(), word@),
            r ==> final(self).at() == old(self).at() + word@.len(),
            !r ==> final(self).at() == old(self).at(),
            final(self).explicit_tables == old(self).explicit_tables,
            final(self).array_tables == old(self).array_tables,
            final(self).dotted_tables == old(self).dotted_tables,
    {
        let w = crate::text::chars_of(word);
        let ghost s = self.text();
        let ghost i = self.at();
        if w.len() > self.chars.len() - self.pos {
            return false;
        }
        let end = self.pos + w.len();
        let mut k: usize = 0;
        while k < w.len()
            invariant
                k <= w@.len(),
                w@ == word@,
                self.inv(),
                self.text() == s,
                self.at() == i,
                end == i + w@.len(),
                end <= s.len(),
                forall|m: int| 0 <= m < k ==> s[i + m] == w@[m],
            decreases w.len() - k,
        {
            if self.chars[self.pos + k] != w[k] {
                assert(s.subrange(i, end as int)[k as int] != word@[k as int]);
                return false;
            }
            k = k + 1;
        }
        assert(s.subrange(i, end as int) =~= word@);
        if end < self.chars.len() && (crate::text::ascii_alnum(self.chars[end]) || self.chars[end] == '_'
            || self.chars[end] == '-') {
            return false;
        }
        self.bump_n(w.len());
        true
    }

    fn parse_boolean(&mut self) -> (r: Result<bool, Error>)
        requires
            old(self).inv(),
        ensures
            final(self).inv(),
            final(self).text() == old(self).text(),
            old(self).at() <= final(self).at(),
            final(self).explicit_tables == old(self).explicit_tables,
            final(self).array_tables == old(self).array_tables,
            final(self).dotted_tables == old(self).dotted_tables,
            ({
                let s = old(self).text();
                let i = old(self).at();
                if word_at(s, i, "true"@) {
                    r == Ok::<bool, Error>(true) && final(self).at() == i + 4
                } else if word_at(s, i, "false"@) {
                    r == Ok::<bool, Error>(false) && final(self).at() == i + 5
                } else {
                    r matches Err(e) && error_view(e) == error_at(s, i, "expected `true` or `false`"@)
                }
            }),
    {
        proof {
            reveal_strlit("true");
            reveal_strlit("false");
        }
        if self.consume_word("true") {
            Ok(true)
        } else if self.consume_word("false") {
            Ok(false)
        } else {
            Err(self.error_here(owned("expected `true` or `false`")))
        }
    }

    fn parse_key_segment(&mut self) -> (r: Result<String, Error>)
        requires
            old(self).inv(),
        ensures
            final(self).inv(),
            final(self).text() == old(self).text(),
            old(self).at() <= final(self).at(),
            final(self).explicit_tables == old(self).explicit_tables,
            final(self).array_tables == old(self).array_tables,
            final(self).dotted_tables == old(self).dotted_tables,
            lexed_as(r, *final(self), old(self).text(), key_segment(old(self).text(), old(self).at())),
    {
        let ghost s = self.text();
        let ghost i = self.at();
        match self.peek() {
            Some(c) => {
                if c == '"' {
                    self.parse_basic_string()
                } else if c == '\'' {
                    self.parse_literal_string()
                } else if crate::text::ascii_alnum(c) || c == '_' || c == '-' {
                    let start = self.pos;
                    while self.pos < self.chars.len() && (crate::text::ascii_alnum(self.chars[self.pos])
                        || self.chars[self.pos] == '_' || self.chars[self.pos] == '-')
                        invariant
                            self.inv(),
                            self.text() == s,
                            i <= self.at(),
                            start == i,
                            skip_while(s, self.at(), bare_key_char()) == skip_while(s, i, bare_key_char()),
                            self.explicit_tables == old(self).explicit_tables,
                            self.array_tables == old(self).array_tables,
                            self.dotted_tables == old(self).dotted_tables,
                        decreases s.len() - self.at(),
                    {
                        let ghost b = self.at();
                        assert(bare_key_char()(s[b]));
                        self.bump();
                        assert(skip_while(s, b, bare_key_char()) == skip_while(s, b + 1, bare_key_char()));
                    }
                    proof {
                        assert(skip_while(s, self.at(), bare_key_char()) == self.at());
                    }
                    let key = crate::text::chars_slice(self.chars.as_slice(), start, self.pos);
                    Ok(crate::text::string_from(key.as_slice()))
                } else {
                    let mut m = owned("invalid key character ");
                    let sc = shown(c);
                    push_str(&mut m, sc.as_str());
                    Err(self.error_here(m))
                }
            },
            None => Err(self.error_here(owned("unexpected end of input while reading a key"))),
        }
    }

    fn parse_key_path(&mut self) -> (r: Result<Vec<String>, Error>)
        requires
            old(self).inv(),
        ensures
            final(self).inv(),
            final(self).text() == old(self).text(),
            old(self).at() <= final(self).at(),
            final(self).explicit_tables == old(self).explicit_tables,
            final(self).array_tables == old(self).array_tables,
            final(self).dotted_tables == old(self).dotted_tables,
            match key_path(old(self).text(), old(self).at()) {
                Ok((ks, e)) => r matches Ok(path) && crate::text::strings_view(path@) == ks
                    && final(self).at() == e,
                Err((m, k)) => r matches Err(err) && error_view(err) == error_at(old(self).text(), k, m),
            },
    {
        let ghost s = self.text();
        let ghost i = self.at();
        let first = self.parse_key_segment()?;
        let mut path: Vec<String> = Vec::new();
        path.push(first);
        proof {
            lemma_key_segment_bounds(s, i);
            assert(crate::text::strings_view(path@) =~= seq![path@[0]@]);
            if let Ok((ks, e)) = key_path_from(s, self.at()) {
                assert(seq![path@[0]@] + ks =~= crate::text::strings_view(path@) + ks);
            }
        }
        loop
            invariant
                self.inv(),
                self.text() == s,
                s == old(self).text(),
                i == old(self).at(),
                i <= self.at(),
                path@.len() > 0,
                key_path(s, i) == (match key_path_from(s, self.at()) {
                    Ok((ks, e)) => Ok((crate::text::strings_view(path@) + ks, e)),
                    Err(x) => Err::<(Seq<Seq<char>>, int), (Seq<char>, int)>(x),
                }),
                self.explicit_tables == old(self).explicit_tables,
                self.array_tables == old(self).array_tables,
                self.dotted_tables == old(self).dotted_tables,
            decreases s.len() - self.at(),
        {
            let ghost here = self.at();
            proof {
                reveal(key_path_from);
                lemma_skip_while(s, here, inline_space());
            }
            self.skip_inline_whitespace();
            if self.peek() == Some('.') {
                let ghost w = self.at();
                self.bump();
                proof {
                    lemma_skip_while(s, w + 1, inline_space());
                }
                self.skip_inline_whitespace();
                let ghost w2 = self.at();
                proof {
                    lemma_key_segment_bounds(s, w2);
                    assert(here <= w);
                    assert(w + 1 <= w2);
                }
                let segment = self.parse_key_segment()?;
                let ghost before = path@;
                path.push(segment);
                proof {
                    let (k, e) = key_segment(s, w2)->Ok_0;
                    assert(crate::text::strings_view(path@) =~= crate::text::strings_view(before).push(k));
                    match key_path_from(s, e) {
                        Ok((ks, f)) => {
                            assert(crate::text::strings_view(before) + (seq![k] + ks) =~= crate::text::strings_view(path@) + ks);
                        },
                        Err(x) => {},
                    }
                }
            } else {
                proof {
                    assert(crate::text::strings_view(path@) + seq![] =~= crate::text::strings_view(path@));
                }
                return Ok(path);
            }
        }
    }
}

// ------------------------------------------------------------- structure

/// Segments joined with `.`.
pub open spec fn dotted(ks: Seq<Seq<char>>) -> Seq<char>
    decreases ks.len(),
{
    if ks.len() == 0 {
        seq![]
    } else if ks.len() == 1 {
        ks[0]
    } else {
        dotted(ks.drop_last()) + seq!['.'] + ks.last()
    }
}

/// The first `n` segments of `path`, joined with `.`.
fn join_dotted(path: &[String], n: usize) -> (r: String)
    requires
        n <= path@.len(),
    ensures
        r@ == dotted(crate::text::strings_view(path@.take(n as int))),
{
    let mut out = String::new();
    let mut k: usize = 0;
    while k < n
        invariant
            k <= n <= path@.len(),
            out@ == dotted(crate::text::strings_view(path@.take(k as int))),
        decreases n - k,
    {
        proof {
            let v = crate::text::strings_view(path@.take(k + 1));
            assert(v.drop_last() =~= crate::text::strings_view(path@.take(k as int)));
            assert(v.last() == path@[k as int]@);
        }
        if k > 0 {
            push_char(&mut out, '.');
        }
        push_str(&mut out, path[k].as_str());
        k = k + 1;
    }
    out
}

/// Whether `path` is one of `list`.
fn holds_path(list: &Vec<Vec<String>>, path: &Vec<String>) -> (r: bool)
    ensures
        r == exists|i: int| 0 <= i < list@.len() && crate::text::strings_view(#[trigger] list@[i]@) == crate::text::strings_view(path@),
{
    let mut i: usize = 0;
    while i < list.len()
        invariant
            i <= list@.len(),
            forall|k: int| 0 <= k < i ==> crate::text::strings_view(#[trigger] list@[k]@) != crate::text::strings_view(path@),
        decreases list.len() - i,
    {
        if same_path(&list[i], path) {
            return true;
        }
        i = i + 1;
    }
    false
}

fn same_path(a: &Vec<String>, b: &Vec<String>) -> (r: bool)
    ensures
        r == (crate::text::strings_view(a@) == crate::text::strings_view(b@)),
{
    if a.len() != b.len() {
        proof {
            assert(crate::text::strings_view(a@).len() != crate::text::strings_view(b@).len());
        }
        return false;
    }
    let mut i: usize = 0;
    while i < a.len()
        invariant
            i <= a@.len(),
            a@.len() == b@.len(),
            forall|k: int| 0 <= k < i ==> a@[k]@ == b@[k]@,
        decreases a.len() - i,
    {
        if !crate::text::str_eq(a[i].as_str(), b[i].as_str()) {
            proof {
                assert(crate::text::strings_view(a@)[i as int] != crate::text::strings_view(b@)[i as int]);
            }
            return false;
        }
        i = i + 1;
    }
    proof {
        assert(crate::text::strings_view(a@) =~= crate::text::strings_view(b@));
    }
    true
}

fn copy_path(path: &[String], n: usize) -> (r: Vec<String>)
    requires
        n <= path@.len(),
    ensures
        crate::text::strings_view(r@) == crate::text::strings_view(path@.take(n as int)),
{
    let mut out: Vec<String> = Vec::new();
    let mut k: usize = 0;
    while k < n
        invariant
            k <= n <= path@.len(),
            crate::text::strings_view(out@) == crate::text::strings_view(path@.take(k as int)),
        decreases n - k,
    {
        let ghost before = out@;
        out.push(owned(path[k].as_str()));
        proof {
            assert(path@.take(k + 1) =~= path@.take(k as int).push(path@[k as int]));
            assert(crate::text::strings_view(out@) =~= crate::text::strings_view(before).push(path@[k as int]@));
            assert(crate::text::strings_view(path@.take(k + 1)) =~= crate::text::strings_view(path@.take(k as int)).push(path@[k as int]@));
        }
        k = k + 1;
    }
    out
}

/// What to do once a path has been followed.
enum Edit {
    /// Nothing: the path only has to exist.
    Touch,
    /// Append an empty table to the array of tables under the key; the
    /// full dotted name, for the message if that is not possible.
    Append(String, String),
    /// Store a new key, which must not be there yet; the full dotted name
    /// and the position to report if it is.
    Put(String, Node, String, usize, usize),
}

/// An array of tables can be extended under `key`: nothing is there yet,
/// or an array is.
spec fn append_ok(t: Table, key: Seq<char>) -> bool {
    match t.get_spec(key) {
        Some(n) => n.value is Array,
        None => true,
    }
}

/// Whether the last step of an edit can be made in the table it reaches.
spec fn change_ok(t: Table, change: Edit) -> bool {
    match change {
        Edit::Touch => true,
        Edit::Append(key, _) => append_ok(t, key@),
        Edit::Put(key, _, _, _, _) => t.get_spec(key@) is None,
    }
}

/// Whether `path[depth..]` can be followed in `t`, each segment naming a
/// table, an array whose last element is a table, or nothing yet, and the
/// table reached then meets `last`.
spec fn path_ok(t: Table, path: Seq<Seq<char>>, depth: int, last: spec_fn(Table) -> bool) -> bool
    decreases path.len() - depth,
{
    if depth >= path.len() {
        last(t)
    } else {
        match t.get_spec(path[depth]) {
            None => true,
            Some(n) => match n.value {
                Value::Table(inner) => path_ok(inner, path, depth + 1, last),
                Value::Array(items) => items@.len() > 0 && (items@.last().value matches Value::Table(inner)
                    && path_ok(inner, path, depth + 1, last)),
                _ => false,
            },
        }
    }
}

/// Whether `edit` succeeds in `t` along `path[depth..]`.
spec fn edit_ok(t: Table, path: Seq<Seq<char>>, depth: int, change: Edit) -> bool {
    path_ok(t, path, depth, |u: Table| change_ok(u, change))
}

/// Every edit can be made in a table that holds nothing.
proof fn lemma_edit_ok_empty(t: Table, path: Seq<Seq<char>>, depth: int, change: Edit)
    requires
        t.items().len() == 0,
    ensures
        edit_ok(t, path, depth, change),
{
    assert(forall|k: Seq<char>| #[trigger] t.get_spec(k) is None);
}

/// `ks` is one of the paths in `list`.
spec fn declared(list: Seq<Vec<String>>, ks: Seq<Seq<char>>) -> bool {
    exists|i: int| 0 <= i < list.len() && crate::text::strings_view(#[trigger] list[i]@) == ks
}

/// The header's closing bracket at `c` is followed by the end of the line.
spec fn header_closed(s: Seq<char>, c: int) -> bool {
    line_end(s, comment_end(s, skip_while(s, c, inline_space()))) is Ok
}

/// Whether the `[table]` header at the parser's position is accepted: its
/// path reads, `]` and the end of the line follow, the path was not declared
/// before, and it leads through tables in `root`.
spec fn table_header_ok(p: Parser, root: Table) -> bool {
    let s = p.text();
    match key_path(s, skip_while(s, p.at() + 1, inline_space())) {
        Err(_) => false,
        Ok((ks, e)) => {
            let c = skip_while(s, e, inline_space());
            &&& c < s.len() && s[c] == ']'
            &&& header_closed(s, c + 1)
            &&& !declared(p.explicit_tables@, ks)
            &&& !declared(p.dotted_tables@, ks)
            &&& !declared(p.array_tables@, ks)
            &&& path_ok(root, ks, 0, |u: Table| true)
        },
    }
}

/// Whether the `[[array]]` header at the parser's position is accepted: its
/// path reads, `]]` and the end of the line follow, the path is not a table
/// declared before, and a table can be appended at it in `root`.
spec fn array_header_ok(p: Parser, root: Table) -> bool {
    let s = p.text();
    match key_path(s, skip_while(s, p.at() + 2, inline_space())) {
        Err(_) => false,
        Ok((ks, e)) => {
            let c = skip_while(s, e, inline_space());
            &&& c + 1 < s.len() && s[c] == ']' && s[c + 1] == ']'
            &&& header_closed(s, c + 2)
            &&& !declared(p.explicit_tables@, ks)
            &&& !declared(p.dotted_tables@, ks)
            &&& path_ok(root, ks.drop_last(), 0, |u: Table| append_ok(u, ks.last()))
        },
    }
}

/// The statement at `a` binds one key to a string, a boolean or a number
/// that reads, with nothing but a comment after it on its line: the key,
/// where the value starts, and where the next line starts.
pub open spec fn scalar_statement(s: Seq<char>, a: int) -> Option<(Seq<char>, int, int)> {
    match key_path(s, a) {
        Ok((ks, e)) => {
            let c = skip_while(s, e, inline_space());
            let v = skip_while(s, c + 1, inline_space());
            if ks.len() == 1 && c < s.len() && s[c] == '=' && (value_kind(s, v) matches Ok(k) && (k is Text
                || k is Flag || k is Number)) {
                match scalar_end(s, v) {
                    Some(ve) => match line_end(s, comment_end(s, skip_while(s, ve, inline_space()))) {
                        Ok(n) => Some((ks[0], v, n)),
                        Err(_) => None,
                    },
                    None => None,
                }
            } else {
                None
            }
        },
        Err(_) => None,
    }
}

/// Where a string, boolean or number value, an inline array of them, or an
/// inline table of single keys bound to them, starting at `v` ends, when it
/// reads.
pub open spec fn simple_end(s: Seq<char>, v: int) -> Option<int> {
    match value_kind(s, v) {
        Ok(Kind::Text) => scalar_end(s, v),
        Ok(Kind::Flag) => scalar_end(s, v),
        Ok(Kind::Number) => scalar_end(s, v),
        Ok(Kind::List) => scalar_array_end(s, v),
        Ok(Kind::Mapping) => scalar_table_end(s, v),
        _ => None,
    }
}

/// The statement at `a` binds one key to a string, a boolean, a number, an
/// inline array of them or an inline table of single keys bound to them, that
/// reads, with nothing but a comment after it on its line: the key, where the
/// value starts, and where the next line starts.
pub open spec fn simple_statement(s: Seq<char>, a: int) -> Option<(Seq<char>, int, int)> {
    match key_path(s, a) {
        Ok((ks, e)) => {
            let c = skip_while(s, e, inline_space());
            let v = skip_while(s, c + 1, inline_space());
            if ks.len() == 1 && c < s.len() && s[c] == '=' {
                match simple_end(s, v) {
                    Some(ve) => match line_end(s, comment_end(s, skip_while(s, ve, inline_space()))) {
                        Ok(n) => Some((ks[0], v, n)),
                        Err(_) => None,
                    },
                    None => None,
                }
            } else {
                None
            }
        },
        Err(_) => None,
    }
}

/// A string, a boolean, a number, or an array of them.
pub open spec fn plain_value(v: Value) -> bool {
    crate::toml::is_scalar(v) || (v matches Value::Array(items) && forall|k: int|
        0 <= k < items@.len() ==> crate::toml::is_scalar(#[trigger] items@[k].value))
}

/// A document made only of such statements, with comments and blank lines
/// between them, read from `i`: each statement's key and where its value
/// starts, in order; `None` for any other text.
pub open spec fn flat_bindings(s: Seq<char>, i: int) -> Option<Seq<(Seq<char>, int)>>
    decreases s.len() - i,
{
    let t = trivia_end(s, i);
    if i < 0 || i > s.len() {
        None
    } else if t >= s.len() {
        Some(seq![])
    } else if s[t] == '[' {
        None
    } else {
        match scalar_statement(s, t) {
            Some((k, v, n)) => if i < n <= s.len() {
                match flat_bindings(s, n) {
                    Some(rest) => Some(seq![(k, v)] + rest),
                    None => None,
                }
            } else {
                None
            },
            None => None,
        }
    }
}

/// No key is bound twice.
pub open spec fn distinct_keys(bs: Seq<(Seq<char>, int)>) -> bool {
    forall|j: int, k: int| 0 <= j < k < bs.len() ==> #[trigger] bs[j].0 != #[trigger] bs[k].0
}

/// One step of a flat document: the statement at the end of the trivia.
proof fn lemma_flat_step(s: Seq<char>, i: int, bs: Seq<(Seq<char>, int)>)
    requires
        flat_bindings(s, i) == Some(bs),
        trivia_end(s, i) < s.len(),
    ensures
        s[trivia_end(s, i)] != '[',
        scalar_statement(s, trivia_end(s, i)) matches Some((k, v, n)) && bs.len() > 0 && bs[0] == (k, v)
            && flat_bindings(s, n) == Some(bs.skip(1)) && i < n,
{
    if let Some((k, v, n)) = scalar_statement(s, trivia_end(s, i)) {
        let rest = flat_bindings(s, n)->0;
        assert(bs == seq![(k, v)] + rest);
        assert(bs.skip(1) =~= rest);
    }
}

/// What `keyval_outcome` decides for a statement of a flat document at the
/// top of the document: it succeeds exactly when its key is new.
proof fn lemma_statement_outcome(s: Seq<char>, a: int, root: Table)
    requires
        scalar_statement(s, a) is Some,
    ensures
        scalar_statement(s, a) matches Some((k, v, n)) && keyval_outcome(s, a, seq![], root) == Some(
            root.get_spec(k) is None,
        ) && (key_path(s, a) matches Ok((ks, e)) && ks.len() == 1 && ks[0] == k && value_start(s, e) == v),
{
    if let Ok((ks, e)) = key_path(s, a) {
        let full = Seq::<Seq<char>>::empty() + ks;
        assert(full =~= ks);
        assert(full.drop_last() =~= Seq::<Seq<char>>::empty());
        assert(full.last() == ks[0]);
    }
}

/// A `[key]` header naming a single key at `a`, closed and ending its line:
/// the key, and where the next line starts.
pub open spec fn section_header(s: Seq<char>, a: int) -> Option<(Seq<char>, int)> {
    if 0 <= a && a + 1 < s.len() && s[a] == '[' && s[a + 1] != '[' {
        match key_path(s, skip_while(s, a + 1, inline_space())) {
            Ok((ks, e)) => {
                let c = skip_while(s, e, inline_space());
                if ks.len() == 1 && c < s.len() && s[c] == ']' {
                    match line_end(s, comment_end(s, skip_while(s, c + 1, inline_space()))) {
                        Ok(n) => Some((ks[0], n)),
                        Err(_) => None,
                    }
                } else {
                    None
                }
            },
            Err(_) => None,
        }
    } else {
        None
    }
}

/// A document made of `[key]` headers naming single keys and of statements
/// binding a single key to a string, a boolean, a number, an inline array of
/// them or (under a header) an inline table of single keys bound to them,
/// with comments and blank lines between them, read from `i` inside the table `sec` (empty at
/// the top): the headers' keys in order, and each statement's path (its
/// header's key, then its own) with where its value starts; `None` for any
/// other text.
pub open spec fn sectioned(s: Seq<char>, i: int, sec: Seq<Seq<char>>) -> Option<
    (Seq<Seq<char>>, Seq<(Seq<Seq<char>>, int)>),
>
    decreases s.len() - i,
{
    let t = trivia_end(s, i);
    if i < 0 || i > s.len() {
        None
    } else if t >= s.len() {
        Some((seq![], seq![]))
    } else if s[t] == '[' {
        match section_header(s, t) {
            Some((name, n)) => if i < n <= s.len() {
                match sectioned(s, n, seq![name]) {
                    Some((hs, bs)) => Some((seq![name] + hs, bs)),
                    None => None,
                }
            } else {
                None
            },
            None => None,
        }
    } else {
        match simple_statement(s, t) {
            Some((k, v, n)) => if i < n <= s.len() && (sec.len() > 0 || !(value_kind(s, v) matches Ok(Kind::Mapping))) {
                match sectioned(s, n, sec) {
                    Some((hs, bs)) => Some((hs, seq![(sec.push(k), v)] + bs)),
                    None => None,
                }
            } else {
                None
            },
            None => None,
        }
    }
}

/// A sectioned document parses: no header is given twice, none names a key
/// bound at the top, and no path is bound twice.
pub open spec fn sections_ok(hs: Seq<Seq<char>>, bs: Seq<(Seq<Seq<char>>, int)>) -> bool {
    &&& forall|i: int, j: int| 0 <= i < j < hs.len() ==> #[trigger] hs[i] != #[trigger] hs[j]
    &&& forall|i: int, j: int|
        0 <= i < hs.len() && 0 <= j < bs.len() && bs[j].0.len() == 1 ==> #[trigger] bs[j].0[0] != #[trigger] hs[i]
    &&& forall|i: int, j: int| 0 <= i < j < bs.len() ==> #[trigger] bs[i].0 != #[trigger] bs[j].0
}

/// The binding `b` holds in `t`: a top key holds a scalar, or an array of
/// them, that its value reads, a key under a header holds in that header's table what its value
/// reads.
pub open spec fn binding_held(s: Seq<char>, t: Table, b: (Seq<Seq<char>>, int)) -> bool {
    if b.0.len() == 1 {
        t.get_spec(b.0[0]) matches Some(n) && plain_value(n.value) && value_read(s, b.1, n.value)
    } else {
        b.0.len() == 2 && (inner_get(t, b.0[0], b.0[1]) matches Some(n) && value_read(s, b.1, n.value))
    }
}

/// `t` is the table of a sectioned document: each binding holds, each header
/// names a table, and nothing else is there.
pub open spec fn holds_sections(s: Seq<char>, t: Table, hs: Seq<Seq<char>>, bs: Seq<(Seq<Seq<char>>, int)>) -> bool {
    &&& forall|j: int| 0 <= j < bs.len() ==> binding_held(s, t, #[trigger] bs[j])
    &&& forall|i: int| 0 <= i < hs.len() ==> (t.get_spec(#[trigger] hs[i]) matches Some(n) && n.value is Table)
    &&& forall|k: Seq<char>|
        (forall|i: int| 0 <= i < hs.len() ==> hs[i] != k) && (forall|j: int| 0 <= j < bs.len() ==> bs[j].0 != seq![k])
            ==> #[trigger] t.get_spec(k) is None
    &&& forall|i: int, x: Seq<char>|
        0 <= i < hs.len() && (forall|j: int| 0 <= j < bs.len() ==> bs[j].0 != seq![hs[i], x]) ==> #[trigger] inner_get(
            t,
            hs[i],
            x,
        ) is None
}

/// One step of a sectioned document: the header or statement at the end of
/// the trivia.
proof fn lemma_sectioned_step(
    s: Seq<char>,
    i: int,
    sec: Seq<Seq<char>>,
    hs: Seq<Seq<char>>,
    bs: Seq<(Seq<Seq<char>>, int)>,
)
    requires
        sectioned(s, i, sec) == Some((hs, bs)),
        trivia_end(s, i) < s.len(),
    ensures
        s[trivia_end(s, i)] == '[' ==> (section_header(s, trivia_end(s, i)) matches Some((name, n)) && hs.len() > 0
            && hs[0] == name && sectioned(s, n, seq![name]) == Some((hs.skip(1), bs)) && i < n),
        s[trivia_end(s, i)] != '[' ==> (simple_statement(s, trivia_end(s, i)) matches Some((k, v, n)) && bs.len() > 0
            && bs[0] == (sec.push(k), v) && sectioned(s, n, sec) == Some((hs, bs.skip(1))) && i < n && (sec.len() > 0
            || !(value_kind(s, v) matches Ok(Kind::Mapping)))),
{
    let t = trivia_end(s, i);
    if s[t] == '[' {
        if let Some((name, n)) = section_header(s, t) {
            let rest = sectioned(s, n, seq![name])->0;
            assert(hs == seq![name] + rest.0);
            assert(hs.skip(1) =~= rest.0);
        }
    } else {
        if let Some((k, v, n)) = simple_statement(s, t) {
            let rest = sectioned(s, n, sec)->0;
            assert(bs == seq![(sec.push(k), v)] + rest.1);
            assert(bs.skip(1) =~= rest.1);
        }
    }
}

/// What `keyval_outcome` decides for a statement at the top of a sectioned
/// document: it succeeds exactly when its key is new.
proof fn lemma_simple_outcome(s: Seq<char>, a: int, root: Table)
    requires
        simple_statement(s, a) is Some,
    ensures
        simple_statement(s, a) matches Some((k, v, n)) && keyval_outcome(s, a, seq![], root) == Some(
            root.get_spec(k) is None,
        ) && (key_path(s, a) matches Ok((ks, e)) && ks.len() == 1 && ks[0] == k && value_start(s, e) == v),
{
    if let Ok((ks, e)) = key_path(s, a) {
        let full = Seq::<Seq<char>>::empty() + ks;
        assert(full =~= ks);
        assert(full.drop_last() =~= Seq::<Seq<char>>::empty());
        assert(full.last() == ks[0]);
    }
}

/// What `keyval_outcome` decides for a statement under the header `sec`
/// whose table is in the root: it succeeds exactly when its key is new there.
proof fn lemma_statement_outcome_in(s: Seq<char>, a: int, sec: Seq<char>, root: Table)
    requires
        simple_statement(s, a) is Some,
        root.get_spec(sec) matches Some(n) && n.value is Table,
    ensures
        simple_statement(s, a) matches Some((k, v, n)) && keyval_outcome(s, a, seq![sec], root) == Some(
            inner_get(root, sec, k) is None,
        ),
{
    if let Ok((ks, e)) = key_path(s, a) {
        let full = seq![sec] + ks;
        assert(full.drop_last() =~= seq![sec]);
        assert(full.last() == ks[0]);
        let inner = root.get_spec(sec)->0.value->Table_0;
        assert(path_ok(inner, seq![sec], 1, |u: Table| u.get_spec(full.last()) is None) == (inner.get_spec(
            full.last(),
        ) is None));
    }
}

/// A new header keeps the table of a sectioned document what it is, with the
/// header's empty table added.
proof fn lemma_header_step(
    s: Seq<char>,
    r0: Table,
    r1: Table,
    hs: Seq<Seq<char>>,
    bs: Seq<(Seq<Seq<char>>, int)>,
    dh: int,
    db: int,
)
    requires
        0 <= dh < hs.len(),
        0 <= db <= bs.len(),
        holds_sections(s, r0, hs.take(dh), bs.take(db)),
        r0.get_spec(hs[dh]) is None,
        header_effect(r0, r1, seq![hs[dh]]),
    ensures
        holds_sections(s, r1, hs.take(dh + 1), bs.take(db)),
{
    let h = hs[dh];
    let ho = hs.take(dh);
    let hn = hs.take(dh + 1);
    let b = bs.take(db);
    assert(hn == ho.push(h));
    assert forall|j: int| 0 <= j < b.len() implies binding_held(s, r1, #[trigger] b[j]) by {
        assert(binding_held(s, r0, b[j]));
    }
    assert forall|i: int| 0 <= i < hn.len() implies (r1.get_spec(#[trigger] hn[i]) matches Some(n) && n.value is Table) by {
        if i < dh {
            assert(hn[i] == ho[i]);
        }
    }
    assert forall|k: Seq<char>|
        (forall|i: int| 0 <= i < hn.len() ==> hn[i] != k) && (forall|j: int| 0 <= j < b.len() ==> b[j].0 != seq![k])
        implies #[trigger] r1.get_spec(k) is None by {
        assert(hn[dh] == h);
        assert forall|i: int| 0 <= i < ho.len() implies ho[i] != k by {
            assert(hn[i] == ho[i]);
        }
    }
    assert forall|i: int, x: Seq<char>|
        0 <= i < hn.len() && (forall|j: int| 0 <= j < b.len() ==> b[j].0 != seq![hn[i], x]) implies #[trigger] inner_get(
        r1,
        hn[i],
        x,
    ) is None by {
        if i < dh {
            assert(hn[i] == ho[i]);
            assert(r0.get_spec(ho[i]) matches Some(n) && n.value is Table);
            assert(r1.get_spec(ho[i]) == r0.get_spec(ho[i]));
            assert(inner_get(r1, hn[i], x) == inner_get(r0, ho[i], x));
        } else {
            assert(hn[i] == h);
            assert(inner_get(r0, h, x) is None);
        }
    }
}

/// A new top binding keeps the table of a sectioned document what it is,
/// with the binding added.
proof fn lemma_top_step(
    s: Seq<char>,
    r0: Table,
    r1: Table,
    hs: Seq<Seq<char>>,
    bs: Seq<(Seq<Seq<char>>, int)>,
    dh: int,
    db: int,
    k: Seq<char>,
)
    requires
        0 <= dh <= hs.len(),
        0 <= db < bs.len(),
        holds_sections(s, r0, hs.take(dh), bs.take(db)),
        bs[db].0 == seq![k],
        r0.get_spec(k) is None,
        r1.get_spec(k) matches Some(n) && plain_value(n.value) && value_read(s, bs[db].1, n.value),
        forall|x: Seq<char>| x != k ==> #[trigger] r1.get_spec(x) == r0.get_spec(x),
    ensures
        holds_sections(s, r1, hs.take(dh), bs.take(db + 1)),
{
    let h = hs.take(dh);
    let bo = bs.take(db);
    let bn = bs.take(db + 1);
    assert(bn == bo.push(bs[db]));
    assert forall|j: int| 0 <= j < bn.len() implies binding_held(s, r1, #[trigger] bn[j]) by {
        if j < db {
            assert(bn[j] == bo[j]);
            assert(binding_held(s, r0, bo[j]));
        }
    }
    assert forall|k2: Seq<char>|
        (forall|i: int| 0 <= i < h.len() ==> h[i] != k2) && (forall|j: int| 0 <= j < bn.len() ==> bn[j].0 != seq![k2])
        implies #[trigger] r1.get_spec(k2) is None by {
        assert(bn[db as int].0 == seq![k]);
        assert forall|j: int| 0 <= j < bo.len() implies bo[j].0 != seq![k2] by {
            assert(bn[j] == bo[j]);
        }
    }
    assert forall|i: int, x: Seq<char>|
        0 <= i < h.len() && (forall|j: int| 0 <= j < bn.len() ==> bn[j].0 != seq![h[i], x]) implies #[trigger] inner_get(
        r1,
        h[i],
        x,
    ) is None by {
        assert forall|j: int| 0 <= j < bo.len() implies bo[j].0 != seq![h[i], x] by {
            assert(bn[j] == bo[j]);
        }
        assert(r0.get_spec(h[i]) matches Some(n) && n.value is Table);
        assert(r1.get_spec(h[i]) == r0.get_spec(h[i]));
        assert(inner_get(r1, h[i], x) == inner_get(r0, h[i], x));
    }
}

/// A new binding under the header `sec` keeps the table of a sectioned
/// document what it is, with the binding added to that header's table.
proof fn lemma_section_step(
    s: Seq<char>,
    r0: Table,
    r1: Table,
    hs: Seq<Seq<char>>,
    bs: Seq<(Seq<Seq<char>>, int)>,
    dh: int,
    db: int,
    sec: Seq<char>,
    k: Seq<char>,
)
    requires
        0 < dh <= hs.len(),
        0 <= db < bs.len(),
        holds_sections(s, r0, hs.take(dh), bs.take(db)),
        hs[dh - 1] == sec,
        bs[db].0 == seq![sec, k],
        inner_get(r0, sec, k) is None,
        forall|x: Seq<char>| x != sec ==> #[trigger] r1.get_spec(x) == r0.get_spec(x),
        r1.get_spec(sec) matches Some(t) && t.value matches Value::Table(inner) && (inner.get_spec(k) matches Some(m)
            && value_read(s, bs[db].1, m.value)) && forall|x: Seq<char>|
            x != k ==> #[trigger] inner.get_spec(x) == inner_get(r0, sec, x),
    ensures
        holds_sections(s, r1, hs.take(dh), bs.take(db + 1)),
{
    let h = hs.take(dh);
    let bo = bs.take(db);
    let bn = bs.take(db + 1);
    assert(bn == bo.push(bs[db]));
    assert(h[dh - 1] == sec);
    assert(r0.get_spec(sec) matches Some(n) && n.value is Table);
    assert forall|j: int| 0 <= j < bn.len() implies binding_held(s, r1, #[trigger] bn[j]) by {
        if j < db {
            assert(bn[j] == bo[j]);
            assert(binding_held(s, r0, bo[j]));
            if bo[j].0.len() == 2 && bo[j].0[0] == sec {
                assert(bo[j].0[1] != k);
            }
        } else {
            assert(bn[j] == bs[db]);
            assert(bs[db].0[0] == sec && bs[db].0[1] == k);
        }
    }
    assert forall|i: int| 0 <= i < h.len() implies (r1.get_spec(#[trigger] h[i]) matches Some(n) && n.value is Table) by {
    }
    assert forall|k2: Seq<char>|
        (forall|i: int| 0 <= i < h.len() ==> h[i] != k2) && (forall|j: int| 0 <= j < bn.len() ==> bn[j].0 != seq![k2])
        implies #[trigger] r1.get_spec(k2) is None by {
        assert(bn[db as int].0 == seq![sec, k]);
        assert forall|j: int| 0 <= j < bo.len() implies bo[j].0 != seq![k2] by {
            assert(bn[j] == bo[j]);
        }
    }
    assert forall|i: int, x: Seq<char>|
        0 <= i < h.len() && (forall|j: int| 0 <= j < bn.len() ==> bn[j].0 != seq![h[i], x]) implies #[trigger] inner_get(
        r1,
        h[i],
        x,
    ) is None by {
        assert forall|j: int| 0 <= j < bo.len() implies bo[j].0 != seq![h[i], x] by {
            assert(bn[j] == bo[j]);
        }
        if h[i] == sec {
            assert(bn[db as int].0 == seq![sec, k]);
            if x == k {
                assert(seq![sec, k] == seq![h[i], x]);
            }
            assert(inner_get(r0, h[i], x) is None);
        } else {
            assert(r1.get_spec(h[i]) == r0.get_spec(h[i]));
            assert(inner_get(r1, h[i], x) == inner_get(r0, h[i], x));
        }
    }
}

/// What a top statement of a sectioned document meets: it is accepted
/// exactly when its key holds nothing yet, which it does when the document
/// parses, and then its path is new.
proof fn lemma_top_keyval(s: Seq<char>, t: int, r0: Table, shs: Seq<Seq<char>>, sbs: Seq<(Seq<Seq<char>>, int)>, db: int)
    requires
        simple_statement(s, t) matches Some((k, v, n)) && 0 <= db < sbs.len() && sbs[db] == (
        Seq::<Seq<char>>::empty().push(k),
        v,
        ),
        holds_sections(s, r0, shs.take(0), sbs.take(db)),
    ensures
        simple_statement(s, t) matches Some((k, v, n)) && keyval_outcome(s, t, seq![], r0) == Some(
            r0.get_spec(k) is None,
        ) && sbs[db].0 == seq![k] && (sections_ok(shs, sbs) ==> r0.get_spec(k) is None) && (r0.get_spec(k) is None
            ==> forall|j: int| 0 <= j < db ==> #[trigger] sbs[j].0 != sbs[db].0),
{
    lemma_simple_outcome(s, t, r0);
    let k = simple_statement(s, t)->Some_0.0;
    assert(Seq::<Seq<char>>::empty().push(k) =~= seq![k]);
    let bo = sbs.take(db);
    if sections_ok(shs, sbs) {
        assert forall|j: int| 0 <= j < bo.len() implies bo[j].0 != seq![k] by {
            assert(bo[j] == sbs[j]);
            assert(sbs[j].0 != sbs[db].0);
        }
        assert(shs.take(0).len() == 0);
        assert(r0.get_spec(k) is None);
    }
    if r0.get_spec(k) is None {
        assert forall|j: int| 0 <= j < db implies #[trigger] sbs[j].0 != sbs[db].0 by {
            assert(bo[j] == sbs[j]);
            assert(binding_held(s, r0, bo[j]));
            if sbs[j].0 == seq![k] {
                assert(sbs[j].0[0] == k);
            }
        }
    }
}

/// What a statement under the header `sec` of a sectioned document meets:
/// it is accepted exactly when its key holds nothing in that header's table,
/// which it does when the document parses, and then its path is new.
proof fn lemma_section_keyval(
    s: Seq<char>,
    t: int,
    sec: Seq<char>,
    r0: Table,
    shs: Seq<Seq<char>>,
    sbs: Seq<(Seq<Seq<char>>, int)>,
    dh: int,
    db: int,
)
    requires
        simple_statement(s, t) matches Some((k, v, n)) && 0 <= db < sbs.len() && sbs[db] == (seq![sec].push(k), v),
        0 < dh <= shs.len(),
        shs[dh - 1] == sec,
        holds_sections(s, r0, shs.take(dh), sbs.take(db)),
    ensures
        r0.get_spec(sec) matches Some(n) && n.value is Table,
        simple_statement(s, t) matches Some((k, v, n)) && keyval_outcome(s, t, seq![sec], r0) == Some(
            inner_get(r0, sec, k) is None,
        ) && sbs[db].0 == seq![sec, k] && (sections_ok(shs, sbs) ==> inner_get(r0, sec, k) is None) && (inner_get(
            r0,
            sec,
            k,
        ) is None ==> forall|j: int| 0 <= j < db ==> #[trigger] sbs[j].0 != sbs[db].0),
{
    let ho = shs.take(dh);
    let bo = sbs.take(db);
    assert(ho[dh - 1] == sec);
    lemma_statement_outcome_in(s, t, sec, r0);
    let k = simple_statement(s, t)->Some_0.0;
    assert(seq![sec].push(k) =~= seq![sec, k]);
    if sections_ok(shs, sbs) {
        assert forall|j: int| 0 <= j < bo.len() implies bo[j].0 != seq![ho[dh - 1], k] by {
            assert(bo[j] == sbs[j]);
            assert(sbs[j].0 != sbs[db].0);
        }
        assert(inner_get(r0, ho[dh - 1], k) is None);
    }
    if inner_get(r0, sec, k) is None {
        assert forall|j: int| 0 <= j < db implies #[trigger] sbs[j].0 != sbs[db].0 by {
            assert(bo[j] == sbs[j]);
            assert(binding_held(s, r0, bo[j]));
            if sbs[j].0 == seq![sec, k] {
                assert(sbs[j].0[0] == sec && sbs[j].0[1] == k);
            }
        }
    }
}

/// A binding whose path is new, and which names no header when it is a top
/// one, keeps a sectioned document parsing.
proof fn lemma_bindings_extend(shs: Seq<Seq<char>>, sbs: Seq<(Seq<Seq<char>>, int)>, dh: int, db: int)
    requires
        0 <= dh <= shs.len(),
        0 <= db < sbs.len(),
        sections_ok(shs.take(dh), sbs.take(db)),
        forall|j: int| 0 <= j < db ==> #[trigger] sbs[j].0 != sbs[db].0,
        sbs[db].0.len() == 1 ==> dh == 0,
    ensures
        sections_ok(shs.take(dh), sbs.take(db + 1)),
{
    let h = shs.take(dh);
    let bo = sbs.take(db);
    let bn = sbs.take(db + 1);
    assert(bn == bo.push(sbs[db]));
    assert forall|i: int, j: int| 0 <= i < j < bn.len() implies #[trigger] bn[i].0 != #[trigger] bn[j].0 by {
        assert(bn[i] == sbs[i] && bn[j] == sbs[j]);
        if j < db {
            assert(bo[i] == sbs[i] && bo[j] == sbs[j]);
        }
    }
    assert forall|i: int, j: int|
        0 <= i < h.len() && 0 <= j < bn.len() && bn[j].0.len() == 1 implies #[trigger] bn[j].0[0] != #[trigger] h[i] by {
        if j < db {
            assert(bn[j] == bo[j]);
        }
    }
}

/// What becomes of the statement `key = value` at `a`, inside the table
/// `current`, as far as it is decided without reading an array or an inline
/// table: its key path reads, `=` follows, the value reads and ends its line,
/// and the key is new in the table its path leads to.
spec fn keyval_outcome(s: Seq<char>, a: int, current: Seq<Seq<char>>, root: Table) -> Option<bool> {
    match key_path(s, a) {
        Err(_) => Some(false),
        Ok((ks, e)) => {
            let c = skip_while(s, e, inline_space());
            if !(c < s.len() && s[c] == '=') {
                Some(false)
            } else {
                let v = skip_while(s, c + 1, inline_space());
                match value_kind(s, v) {
                    Err(_) => Some(false),
                    Ok(Kind::List) => match scalar_array_end(s, v) {
                        None => None,
                        Some(ve) => {
                            let full = current + ks;
                            Some(header_closed(s, ve) && path_ok(
                                root,
                                full.drop_last(),
                                0,
                                |u: Table| u.get_spec(full.last()) is None,
                            ))
                        },
                    },
                    Ok(Kind::Mapping) => match scalar_table_end(s, v) {
                        None => None,
                        Some(ve) => {
                            let full = current + ks;
                            Some(header_closed(s, ve) && path_ok(
                                root,
                                full.drop_last(),
                                0,
                                |u: Table| u.get_spec(full.last()) is None,
                            ))
                        },
                    },
                    Ok(_) => match scalar_end(s, v) {
                        None => Some(false),
                        Some(ve) => {
                            let full = current + ks;
                            Some(header_closed(s, ve) && path_ok(
                                root,
                                full.drop_last(),
                                0,
                                |u: Table| u.get_spec(full.last()) is None,
                            ))
                        },
                    },
                }
            }
        },
    }
}

/// What the table under `k` in `t` holds under `x`: nothing when `k` holds
/// no table.
pub open spec fn inner_get(t: Table, k: Seq<char>, x: Seq<char>) -> Option<Node> {
    match t.get_spec(k) {
        Some(n) => match n.value {
            Value::Table(inner) => inner.get_spec(x),
            _ => None,
        },
        None => None,
    }
}

/// What a `[key]` header of one key does to the root `before`, unless the key
/// holds an array there: the key holds a table with what it held before,
/// every other key is untouched.
pub open spec fn header_effect(before: Table, after: Table, ks: Seq<Seq<char>>) -> bool {
    ks.len() == 1 && !(before.get_spec(ks[0]) matches Some(n) && n.value is Array) ==> (
    (forall|x: Seq<char>| x != ks[0] ==> #[trigger] after.get_spec(x) == before.get_spec(x)) && (after.get_spec(ks[0]) matches Some(
        n,
    ) && n.value matches Value::Table(inner) && forall|x: Seq<char>|
        #[trigger] inner.get_spec(x) == inner_get(before, ks[0], x)))
}

/// What the statement `key = value` at `a`, read inside the table `sec`,
/// does to the root `before`, unless `sec` holds an array there: `sec` holds
/// a table where the key holds what the value reads and every other key what
/// it held before; every other key of the root is untouched.
pub open spec fn keyval_effect(s: Seq<char>, a: int, sec: Seq<char>, before: Table, after: Table) -> bool {
    match simple_statement(s, a) {
        Some((k, v, n)) => !(before.get_spec(sec) matches Some(x) && x.value is Array) ==> (
        (forall|x: Seq<char>| x != sec ==> #[trigger] after.get_spec(x) == before.get_spec(x)) && (after.get_spec(
            sec,
        ) matches Some(t) && t.value matches Value::Table(inner) && (inner.get_spec(k) matches Some(m) && value_read(
            s,
            v,
            m.value,
        )) && forall|x: Seq<char>| x != k ==> #[trigger] inner.get_spec(x) == inner_get(before, sec, x))),
        None => true,
    }
}

/// What the statement `key = value` at `a`, read at the top, does to the
/// root `before`: the key holds what the value reads, every other key is
/// untouched.
pub open spec fn top_effect(s: Seq<char>, a: int, before: Table, after: Table) -> bool {
    match simple_statement(s, a) {
        Some((k, v, n)) => (forall|x: Seq<char>| x != k ==> #[trigger] after.get_spec(x) == before.get_spec(x)) && (
        after.get_spec(k) matches Some(m) && value_read(s, v, m.value) && (!(value_kind(s, v) matches Ok(Kind::Mapping))
            ==> plain_value(m.value))),
        None => true,
    }
}

/// Follow `path[depth..]` inside `table`, creating missing tables and going
/// into the last table of an array of tables, then make the edit.
fn edit(table: &mut Table, path: &Vec<String>, depth: usize, change: Edit, line: usize, col: usize) -> (r: Result<(), Error>)
    requires
        depth <= path@.len(),
    ensures
        crate::toml::keeps_scalars(*old(table), *final(table)),
        (r is Ok) == edit_ok(*old(table), crate::text::strings_view(path@), depth as int, change),
        depth == path@.len() ==> (change matches Edit::Put(key, node, _, _, _) ==> (r is Ok ==> final(table).get_spec(
            key@,
        ) == Some(node))),
        depth == path@.len() ==> (change matches Edit::Put(key, _, _, _, _) ==> forall|k: Seq<char>|
            k != key@ ==> #[trigger] final(table).get_spec(k) == old(table).get_spec(k)),
        depth == path@.len() && change is Touch ==> *final(table) == *old(table),
        depth < path@.len() ==> forall|k: Seq<char>|
            k != path@[depth as int]@ ==> #[trigger] final(table).get_spec(k) == old(table).get_spec(k),
        (depth + 1 == path@.len() && r is Ok && !(old(table).get_spec(path@[depth as int]@) matches Some(n)
            && n.value is Array)) ==> (final(table).get_spec(path@[depth as int]@) matches Some(n) && n.value matches Value::Table(
            inner,
        ) && match change {
            Edit::Touch => forall|x: Seq<char>| #[trigger] inner.get_spec(x) == inner_get(*old(table), path@[depth as int]@, x),
            Edit::Put(key, node, _, _, _) => inner.get_spec(key@) == Some(node) && forall|x: Seq<char>|
                x != key@ ==> #[trigger] inner.get_spec(x) == inner_get(*old(table), path@[depth as int]@, x),
            Edit::Append(_, _) => true,
        }),
    decreases path@.len() - depth,
{
    if depth == path.len() {
        return match change {
            Edit::Touch => Ok(()),
            Edit::Append(key, name) => {
                let mut node = match table.remove(key.as_str()) {
                    Some(n) => n,
                    None => Node::new(Value::Array(Vec::new()), line, col),
                };
                let result = match &mut node.value {
                    Value::Array(items) => {
                        items.push(Node::new(Value::Table(Table::new()), line, col));
                        Ok(())
                    },
                    other => {
                        let mut m = owned("cannot append to `");
                        push_str(&mut m, name.as_str());
                        push_str(&mut m, "`: it is a ");
                        push_str(&mut m, other.kind_name());
                        Err(Error { message: m, line, col })
                    },
                };
                table.insert(key, node);
                result
            },
            Edit::Put(key, node, name, key_line, key_col) => {
                if table.contains_key(key.as_str()) {
                    let mut m = owned("key `");
                    push_str(&mut m, name.as_str());
                    push_str(&mut m, "` is defined more than once");
                    Err(Error { message: m, line: key_line, col: key_col })
                } else {
                    table.insert(key, node);
                    Ok(())
                }
            },
        };
    }
    assert(depth < path@.len());
    let segment = path[depth].as_str();
    let mut node = match table.remove(segment) {
        Some(n) => n,
        None => Node::new(Value::Table(Table::new()), line, col),
    };
    proof {
        if old(table).get_spec(path@[depth as int]@) is None {
            lemma_edit_ok_empty(node.value->Table_0, crate::text::strings_view(path@), depth + 1, change);
        }
    }
    let result = match &mut node.value {
        Value::Table(inner) => edit(inner, path, depth + 1, change, line, col),
        Value::Array(items) => {
            let n = items.len();
            if n == 0 {
                Err(not_a_table(path, depth, line, col))
            } else {
                let ghost all = items@;
                let mut last = items.pop().unwrap();
                assert(last == all.last());
                let r = match &mut last.value {
                    Value::Table(inner) => edit(inner, path, depth + 1, change, line, col),
                    _ => Err(not_a_table(path, depth, line, col)),
                };
                items.push(last);
                r
            }
        },
        other => {
            let mut m = owned("`");
            let prefix = join_dotted(path.as_slice(), depth + 1);
            push_str(&mut m, prefix.as_str());
            push_str(&mut m, "` is a ");
            push_str(&mut m, other.kind_name());
            push_str(&mut m, " and cannot contain sub-keys");
            Err(Error { message: m, line, col })
        },
    };
    table.insert(owned(segment), node);
    result
}

fn not_a_table(path: &Vec<String>, depth: usize, line: usize, col: usize) -> (e: Error)
    requires
        depth < path.len(),
    ensures
        e.message@ == "`"@ + dotted(crate::text::strings_view(path@.take(depth + 1))) + "` is not a table"@,
        e.line == line,
        e.col == col,
{
    let mut m = owned("`");
    let prefix = join_dotted(path.as_slice(), depth + 1);
    push_str(&mut m, prefix.as_str());
    push_str(&mut m, "` is not a table");
    Error { message: m, line, col }
}

/// The kinds of value the first character announces.
pub enum Kind {
    Text,
    List,
    Mapping,
    Flag,
    Number,
}

/// The first character of a value decides its kind.
pub open spec fn value_kind(s: Seq<char>, i: int) -> Result<Kind, Seq<char>> {
    if 0 <= i < s.len() {
        let c = s[i];
        if c == '"' || c == '\'' {
            Ok(Kind::Text)
        } else if c == '[' {
            Ok(Kind::List)
        } else if c == '{' {
            Ok(Kind::Mapping)
        } else if c == 't' || c == 'f' {
            Ok(Kind::Flag)
        } else if c == '+' || c == '-' || crate::text::is_ascii_digit(c) {
            Ok(Kind::Number)
        } else {
            Err("unexpected value starting with "@ + shown_byte(lead_byte(c)))
        }
    } else {
        Err("unexpected end of input while reading a value"@)
    }
}

/// Where the value of `key = value` starts when the key ends at `e`.
pub open spec fn value_start(s: Seq<char>, e: int) -> int {
    skip_while(s, skip_while(s, e, |c: char| is_inline_space(c)) + 1, |c: char| is_inline_space(c))
}

/// What a value read at `i` holds, as far as its first character decides:
/// the text of a string, the word of a boolean, the number its characters
/// spell, or an array or table.
pub open spec fn value_read(s: Seq<char>, i: int, v: Value) -> bool {
    match value_kind(s, i) {
        Ok(Kind::Text) => v matches Value::String(t) && string_at(s, i) matches Ok((u, _)) && u == t@,
        Ok(Kind::Flag) => v matches Value::Boolean(b) && (if b {
            word_at(s, i, "true"@)
        } else {
            !word_at(s, i, "true"@) && word_at(s, i, "false"@)
        }),
        Ok(Kind::Number) => number_result(s.subrange(i, skip_while(s, i, number_char())), Ok(v)),
        Ok(Kind::List) => v is Array,
        Ok(Kind::Mapping) => v is Table,
        Err(_) => false,
    }
}

/// A document whose first statement binds a single key to a string, a
/// boolean or a number: that key, and where its value starts.
pub open spec fn first_binding(s: Seq<char>) -> Option<(Seq<char>, int)> {
    let t = trivia_end(s, 0);
    if 0 <= t < s.len() && s[t] != '[' {
        match key_path(s, t) {
            Ok((ks, e)) => if ks.len() == 1 && (value_kind(s, value_start(s, e)) matches Ok(k) && (k is Text
                || k is Flag || k is Number)) {
                Some((ks[0], value_start(s, e)))
            } else {
                None
            },
            Err(_) => None,
        }
    } else {
        None
    }
}

/// A value read as a string, a boolean or a number is a scalar.
pub proof fn lemma_read_scalar(s: Seq<char>, i: int, v: Value)
    requires
        value_read(s, i, v),
        value_kind(s, i) matches Ok(k) && (k is Text || k is Flag || k is Number),
    ensures
        crate::toml::is_scalar(v),
{
}

/// Where a string, boolean or number value starting at `i` ends, when it
/// reads.
pub open spec fn scalar_end(s: Seq<char>, i: int) -> Option<int> {
    match value_kind(s, i) {
        Ok(Kind::Text) => match string_at(s, i) {
            Ok((_, e)) => Some(e),
            Err(_) => None,
        },
        Ok(Kind::Flag) => if word_at(s, i, "true"@) {
            Some(i + 4)
        } else if word_at(s, i, "false"@) {
            Some(i + 5)
        } else {
            None
        },
        Ok(Kind::Number) => {
            let e = skip_while(s, i, number_char());
            if exists|v: Value| number_result(s.subrange(i, e), Ok(v)) {
                Some(e)
            } else {
                None
            }
        },
        _ => None,
    }
}

/// The elements of an inline array read from `j`, each a string, a boolean
/// or a number, separated by commas, with an optional trailing comma and
/// comments and line breaks between them: where the closing `]` ends.
pub open spec fn array_items_end(s: Seq<char>, j: int) -> Option<int>
    decreases s.len() - j,
{
    let t = trivia_end(s, j);
    if j < 0 || j > s.len() || t >= s.len() {
        None
    } else if s[t] == ']' {
        Some(t + 1)
    } else if value_kind(s, t) matches Ok(k) && (k is Text || k is Flag || k is Number) {
        match scalar_end(s, t) {
            Some(e) => {
                let u = trivia_end(s, e);
                if !(j <= t < e <= u < s.len()) {
                    None
                } else if s[u] == ',' {
                    array_items_end(s, u + 1)
                } else if s[u] == ']' {
                    Some(u + 1)
                } else {
                    None
                }
            },
            None => None,
        }
    } else {
        None
    }
}

/// The entries of an inline table read from `j`, each a single key bound to
/// a string, a boolean or a number, separated by commas, with an optional
/// trailing comma: their keys in order, and where the closing `}` ends.
pub open spec fn inline_entries(s: Seq<char>, j: int) -> Option<(Seq<Seq<char>>, int)>
    decreases s.len() - j,
{
    let w = skip_while(s, j, inline_space());
    if j < 0 || j > s.len() || w >= s.len() {
        None
    } else if s[w] == '}' {
        Some((seq![], w + 1))
    } else {
        match key_path(s, w) {
            Ok((ks, e)) => {
                let c = skip_while(s, e, inline_space());
                let v = skip_while(s, c + 1, inline_space());
                if ks.len() == 1 && c < s.len() && s[c] == '=' && (value_kind(s, v) matches Ok(k) && (k is Text
                    || k is Flag || k is Number)) {
                    match scalar_end(s, v) {
                        Some(ve) => {
                            let u = skip_while(s, ve, inline_space());
                            if !(j <= w < v < ve <= u < s.len()) {
                                None
                            } else if s[u] == ',' {
                                match inline_entries(s, u + 1) {
                                    Some((rest, end)) => Some((seq![ks[0]] + rest, end)),
                                    None => None,
                                }
                            } else if s[u] == '}' {
                                Some((seq![ks[0]], u + 1))
                            } else {
                                None
                            }
                        },
                        None => None,
                    }
                } else {
                    None
                }
            },
            Err(_) => None,
        }
    }
}

/// One entry of an inline table's entries read from `j`.
proof fn lemma_inline_step(s: Seq<char>, j: int, keys: Seq<Seq<char>>, end: int)
    requires
        inline_entries(s, j) == Some((keys, end)),
        skip_while(s, j, inline_space()) < s.len(),
        s[skip_while(s, j, inline_space())] != '}',
    ensures
        ({
            let w = skip_while(s, j, inline_space());
            match key_path(s, w) {
                Ok((ks, e)) => {
                    let c = skip_while(s, e, inline_space());
                    let v = skip_while(s, c + 1, inline_space());
                    ks.len() == 1 && keys.len() > 0 && keys[0] == ks[0] && c < s.len() && s[c] == '=' && (value_kind(
                        s,
                        v,
                    ) matches Ok(k) && (k is Text || k is Flag || k is Number)) && match scalar_end(s, v) {
                        Some(ve) => {
                            let u = skip_while(s, ve, inline_space());
                            &&& j <= w < v < ve <= u < s.len()
                            &&& s[u] == ',' || s[u] == '}'
                            &&& s[u] == ',' ==> inline_entries(s, u + 1) == Some((keys.skip(1), end))
                            &&& s[u] == '}' ==> keys.len() == 1 && end == u + 1
                        },
                        None => false,
                    }
                },
                Err(_) => false,
            }
        }),
{
    let w = skip_while(s, j, inline_space());
    if let Ok((ks, e)) = key_path(s, w) {
        let c = skip_while(s, e, inline_space());
        let v = skip_while(s, c + 1, inline_space());
        if let Some(ve) = scalar_end(s, v) {
            let u = skip_while(s, ve, inline_space());
            if s[u] == ',' {
                let rest = inline_entries(s, u + 1)->Some_0.0;
                assert(keys == seq![ks[0]] + rest);
                assert(keys.skip(1) =~= rest);
            }
        }
    }
}

/// An inline table of single keys, each given once, bound to strings,
/// booleans and numbers, starting at `i`: where it ends.
pub open spec fn scalar_table_end(s: Seq<char>, i: int) -> Option<int> {
    if 0 <= i < s.len() && s[i] == '{' {
        match inline_entries(s, i + 1) {
            Some((keys, e)) => if keys.no_duplicates() {
                Some(e)
            } else {
                None
            },
            None => None,
        }
    } else {
        None
    }
}

/// An inline array of strings, booleans and numbers starting at `i`: where
/// it ends.
pub open spec fn scalar_array_end(s: Seq<char>, i: int) -> Option<int> {
    if 0 <= i < s.len() && s[i] == '[' {
        array_items_end(s, i + 1)
    } else {
        None
    }
}

impl Parser {
    /// A value at the cursor, with the position it starts at.
    fn parse_value(&mut self) -> (r: Result<Node, Error>)
        requires
            old(self).inv(),
        ensures
            final(self).inv(),
            final(self).text() == old(self).text(),
            old(self).at() <= final(self).at(),
            final(self).explicit_tables == old(self).explicit_tables,
            final(self).array_tables == old(self).array_tables,
            final(self).dotted_tables == old(self).dotted_tables,
            value_kind(old(self).text(), old(self).at()) matches Err(m) ==> (r matches Err(e) && error_view(e)
                == error_at(old(self).text(), old(self).at(), m)),
            r matches Ok(n) ==> (n.line as nat, n.col as nat) == position(old(self).text(), old(self).at()),
            r is Ok ==> old(self).at() < final(self).at(),
            r matches Ok(n) ==> (value_kind(old(self).text(), old(self).at()) == Ok::<Kind, Seq<char>>(Kind::Text)
                ==> (n.value matches Value::String(v) && string_at(old(self).text(), old(self).at())
                == Ok::<(Seq<char>, int), (Seq<char>, int)>((v@, final(self).at())))),
            r matches Ok(n) ==> (value_kind(old(self).text(), old(self).at()) == Ok::<Kind, Seq<char>>(Kind::Flag)
                ==> (n.value matches Value::Boolean(b) && (if b {
                word_at(old(self).text(), old(self).at(), "true"@)
            } else {
                !word_at(old(self).text(), old(self).at(), "true"@) && word_at(old(self).text(), old(self).at(), "false"@)
            }))),
            r matches Ok(n) ==> (value_kind(old(self).text(), old(self).at()) == Ok::<Kind, Seq<char>>(Kind::Number)
                ==> number_result(old(self).text().subrange(old(self).at(), final(self).at()), Ok(n.value))),
            r matches Ok(n) ==> (value_kind(old(self).text(), old(self).at()) == Ok::<Kind, Seq<char>>(Kind::List)
                ==> n.value is Array),
            r matches Ok(n) ==> (value_kind(old(self).text(), old(self).at()) == Ok::<Kind, Seq<char>>(Kind::Mapping)
                ==> n.value is Table),
            r matches Ok(n) ==> value_read(old(self).text(), old(self).at(), n.value),
            value_kind(old(self).text(), old(self).at()) matches Ok(k) && (k is Text || k is Flag || k is Number)
                ==> match scalar_end(old(self).text(), old(self).at()) {
                Some(e) => r is Ok && final(self).at() == e,
                None => r is Err,
            },
            scalar_array_end(old(self).text(), old(self).at()) matches Some(e) ==> (r matches Ok(n) && (final(self).at()
                == e) && (n.value matches Value::Array(items) && forall|k: int|
                0 <= k < items@.len() ==> crate::toml::is_scalar(#[trigger] items@[k].value))),
            scalar_table_end(old(self).text(), old(self).at()) matches Some(e) ==> (r is Ok && final(self).at() == e),
        decreases old(self).text().len() - old(self).at(), 1int,
    {
        let ghost s = self.text();
        let ghost i = self.at();
        let (line, col) = (self.line, self.col);
        let value = match self.peek() {
            Some(c) => {
                if c == '"' || c == '\'' {
                    proof {
                        reveal(basic_body);
                        reveal(literal_body);
                        reveal(multiline_basic_body);
                        reveal(multiline_literal_body);
                        lemma_string_progress(s, i);
                    }
                    match self.parse_string() {
                        Ok(t) => {
                            Value::String(t)
                        },
                        Err(e) => {
                            return Err(e);
                        },
                    }
                } else if c == '[' {
                    self.parse_array()?
                } else if c == '{' {
                    self.parse_inline_table()?
                } else if c == 't' || c == 'f' {
                    proof {
                        reveal_strlit("true");
                        reveal_strlit("false");
                    }
                    match self.parse_boolean() {
                        Ok(b) => Value::Boolean(b),
                        Err(e) => {
                            return Err(e);
                        },
                    }
                } else if c == '+' || c == '-' || crate::text::ascii_digit(c) {
                    proof {
                        lemma_skip_while(s, i, number_char());
                        assert(number_char()(s[i]));
                        lemma_skip_while(s, i + 1, number_char());
                    }
                    self.parse_number()?
                } else {
                    let mut m = owned("unexpected value starting with ");
                    let sc = shown(c);
                    push_str(&mut m, sc.as_str());
                    return Err(self.error_here(m));
                }
            },
            None => {
                return Err(self.error_here(owned("unexpected end of input while reading a value")));
            },
        };
        Ok(Node::new(value, line, col))
    }

    fn parse_array(&mut self) -> (r: Result<Value, Error>)
        requires
            old(self).inv(),
            old(self).at() < old(self).text().len(),
        ensures
            final(self).inv(),
            final(self).text() == old(self).text(),
            old(self).at() <= final(self).at(),
            final(self).explicit_tables == old(self).explicit_tables,
            final(self).array_tables == old(self).array_tables,
            final(self).dotted_tables == old(self).dotted_tables,
            r is Ok ==> (r->Ok_0 is Array && old(self).at() < final(self).at()),
            ({
                let s = old(self).text();
                let t = trivia_end(s, old(self).at() + 1);
                &&& t < s.len() && s[t] == ']' ==> (r matches Ok(Value::Array(v)) && v@.len() == 0
                    && final(self).at() == t + 1)
                &&& t == s.len() ==> (r matches Err(e) && error_view(e) == error_at(s, t, "unterminated array"@))
            }),
            scalar_array_end(old(self).text(), old(self).at()) matches Some(e) ==> (r matches Ok(Value::Array(v))
                && final(self).at() == e && forall|k: int| 0 <= k < v@.len() ==> crate::toml::is_scalar(
                #[trigger] v@[k].value,
            )),
        decreases old(self).text().len() - old(self).at(), 0int,
    {
        let ghost sa = scalar_array_end(self.text(), self.at());
        let ghost s = self.text();
        let ghost i = self.at();
        self.bump();
        let ghost t = trivia_end(s, i + 1);
        let mut items: Vec<Node> = Vec::new();
        loop
            invariant
                self.inv(),
                self.text() == s,
                s == old(self).text(),
                i == old(self).at(),
                i < self.at(),
                t == trivia_end(s, i + 1),
                self.at() == i + 1 ==> items@.len() == 0,
                self.at() > i + 1 ==> t < s.len() && s[t] != ']',
                self.explicit_tables == old(self).explicit_tables,
                self.array_tables == old(self).array_tables,
                self.dotted_tables == old(self).dotted_tables,
                sa == scalar_array_end(s, i),
                sa is Some ==> array_items_end(s, self.at()) == sa,
                sa is Some ==> forall|k: int| 0 <= k < items@.len() ==> crate::toml::is_scalar(#[trigger] items@[k].value),
            decreases s.len() - self.at(),
        {
            let ghost p = self.at();
            self.skip_trivia();
            proof {
                lemma_trivia_end(s, self.at());
                lemma_trivia_end(s, p);
            }
            let ghost tt = self.at();
            if self.peek() == Some(']') {
                self.bump();
                return Ok(Value::Array(items));
            }
            if self.peek().is_none() {
                return Err(self.error_here(owned("unterminated array")));
            }
            assert(self.text().len() - self.at() < old(self).text().len() - old(self).at());
            let item = self.parse_value()?;
            proof {
                if sa is Some {
                    lemma_read_scalar(s, tt, item.value);
                }
            }
            let ghost before = items@;
            items.push(item);
            proof {
                if sa is Some {
                    assert(forall|k: int| 0 <= k < before.len() ==> items@[k] == before[k]);
                }
            }
            let ghost e = self.at();
            self.skip_trivia();
            proof {
                lemma_trivia_end(s, e);
            }
            match self.peek() {
                Some(c) => {
                    if c == ',' {
                        self.bump();
                    } else if c != ']' {
                        return Err(self.error_here(owned("expected `,` or `]` in array")));
                    }
                },
                None => {
                    return Err(self.error_here(owned("expected `,` or `]` in array")));
                },
            }
        }
    }

    fn parse_inline_table(&mut self) -> (r: Result<Value, Error>)
        requires
            old(self).inv(),
            old(self).at() < old(self).text().len(),
        ensures
            final(self).inv(),
            final(self).text() == old(self).text(),
            old(self).at() <= final(self).at(),
            final(self).explicit_tables == old(self).explicit_tables,
            final(self).array_tables == old(self).array_tables,
            final(self).dotted_tables == old(self).dotted_tables,
            r is Ok ==> (r->Ok_0 is Table && old(self).at() < final(self).at()),
            ({
                let s = old(self).text();
                let w = skip_while(s, old(self).at() + 1, inline_space());
                w < s.len() && s[w] == '}' ==> (r matches Ok(Value::Table(t)) && t.items().len() == 0
                    && final(self).at() == w + 1)
            }),
            scalar_table_end(old(self).text(), old(self).at()) matches Some(e) ==> (r is Ok && final(self).at() == e),
        decreases old(self).text().len() - old(self).at(), 0int,
    {
        let ghost st = scalar_table_end(self.text(), self.at());
        let ghost all = inline_entries(self.text(), self.at() + 1)->Some_0.0;
        let ghost end = inline_entries(self.text(), self.at() + 1)->Some_0.1;
        let ghost mut done: int = 0;
        let ghost s = self.text();
        let ghost i = self.at();
        let (line, col) = (self.line, self.col);
        self.bump();
        let ghost w = skip_while(s, i + 1, inline_space());
        let mut table = Table::new();
        loop
            invariant
                self.inv(),
                self.text() == s,
                s == old(self).text(),
                i == old(self).at(),
                i < self.at(),
                w == skip_while(s, i + 1, inline_space()),
                self.at() == i + 1 ==> table.items().len() == 0,
                self.at() > i + 1 ==> !(w < s.len() && s[w] == '}'),
                self.explicit_tables == old(self).explicit_tables,
                self.array_tables == old(self).array_tables,
                self.dotted_tables == old(self).dotted_tables,
                st == scalar_table_end(s, i),
                st is Some ==> {
                    &&& all == inline_entries(s, i + 1)->Some_0.0
                    &&& end == inline_entries(s, i + 1)->Some_0.1
                    &&& all.no_duplicates()
                    &&& 0 <= done <= all.len()
                    &&& inline_entries(s, self.at()) == Some((all.skip(done), end))
                    &&& forall|x: Seq<char>| #[trigger] table.get_spec(x) is Some ==> all.take(done).contains(x)
                },
            decreases s.len() - self.at(),
        {
            let ghost p = self.at();
            self.skip_inline_whitespace();
            proof {
                lemma_skip_while(s, self.at(), inline_space());
                lemma_skip_while(s, p, inline_space());
                if st is Some && self.at() < s.len() && s[self.at()] != '}' {
                    lemma_inline_step(s, p, all.skip(done), end);
                }
            }
            if self.peek() == Some('}') {
                self.bump();
                return Ok(Value::Table(table));
            }
            let (key_line, key_col) = (self.line, self.col);
            let ghost k0 = self.at();
            proof {
                lemma_key_path_progress(s, k0);
            }
            let path = self.parse_key_path()?;
            self.skip_inline_whitespace();
            if self.peek() != Some('=') {
                return Err(self.error_here(owned("expected `=` in inline table")));
            }
            self.bump();
            self.skip_inline_whitespace();
            assert(self.text().len() - self.at() < old(self).text().len() - old(self).at());
            let node = self.parse_value()?;
            let n = path.len();
            let name = join_dotted(path.as_slice(), n);
            let mut parent = copy_path(path.as_slice(), n - 1);
            let key = owned(path[n - 1].as_str());
            let ghost tb = table;
            proof {
                if st is Some {
                    assert(crate::text::strings_view(path@).len() == path@.len());
                    assert(all.skip(done)[0] == all[done]);
                    assert(crate::text::strings_view(path@) =~= seq![all[done]]);
                    assert(parent@.len() == 0) by {
                        assert(crate::text::strings_view(parent@).len() == parent@.len());
                    }
                    assert(crate::text::strings_view(parent@) =~= Seq::<Seq<char>>::empty());
                    assert(key@ == all[done]);
                    if tb.get_spec(key@) is Some {
                        let q = choose|q: int| 0 <= q < done && all.take(done)[q] == key@;
                        assert(all[q] == all[done]);
                    }
                    assert(tb.get_spec(key@) is None);
                }
            }
            edit(&mut table, &parent, 0, Edit::Put(key, node, name, key_line, key_col), line, col)?;
            proof {
                if st is Some {
                    assert forall|x: Seq<char>| #[trigger] table.get_spec(x) is Some implies all.take(done + 1).contains(x) by {
                        if x == all[done] {
                            assert(all.take(done + 1)[done] == x);
                        } else {
                            assert(tb.get_spec(x) is Some);
                            let q = choose|q: int| 0 <= q < done && all.take(done)[q] == x;
                            assert(all.take(done + 1)[q] == x);
                        }
                    }
                }
            }
            let ghost e = self.at();
            self.skip_inline_whitespace();
            proof {
                lemma_skip_while(s, e, inline_space());
                if st is Some {
                    assert(all.skip(done).skip(1) =~= all.skip(done + 1));
                    done = done + 1;
                }
            }
            match self.peek() {
                Some(c) => {
                    if c == ',' {
                        self.bump();
                    } else if c != '}' {
                        return Err(self.error_here(owned("expected `,` or `}` in inline table")));
                    }
                },
                None => {
                    return Err(self.error_here(owned("expected `,` or `}` in inline table")));
                },
            }
        }
    }
}

pub proof fn lemma_trivia_end(s: Seq<char>, i: int)
    requires
        0 <= i <= s.len(),
    ensures
        i <= trivia_end(s, i) <= s.len(),
    decreases s.len() - i,
{
    if i < s.len() {
        if is_trivia_space(s[i]) {
            lemma_trivia_end(s, i + 1);
        } else if s[i] == '#' {
            let e = comment_end(s, i);
            if i < e <= s.len() {
                lemma_trivia_end(s, e);
            }
        }
    }
}

pub proof fn lemma_string_progress(s: Seq<char>, i: int)
    requires
        0 <= i < s.len(),
        s[i] == '"' || s[i] == '\'',
    ensures
        string_at(s, i) matches Ok((v, e)) ==> i < e <= s.len(),
{
    lemma_lexed_bounds_basic(s, i + 1);
    lemma_lexed_bounds_literal(s, i + 1);
    lemma_lexed_bounds_multiline_basic(s, skip_first_newline(s, i + 3));
    lemma_lexed_bounds_multiline_literal(s, skip_first_newline(s, i + 3));
}

pub proof fn lemma_lexed_bounds_multiline_basic(s: Seq<char>, j: int)
    requires
        0 <= j,
    ensures
        multiline_basic_body(s, j) matches Ok((t, e)) ==> j < e <= s.len(),
    decreases s.len() - j,
{
    lemma_multiline_basic_step(s, j);
    if !three_at(s, j, '"') && j < s.len() {
        if s[j] == '\\' {
            let la = skip_while(s, j + 1, line_space());
            if la < s.len() && s[la] == '\n' {
                lemma_skip_while(s, j + 1, trivia_space());
                lemma_lexed_bounds_multiline_basic(s, skip_while(s, j + 1, trivia_space()));
            } else {
                lemma_escape_bounds(s, j + 1);
                if let Ok((t, k)) = escape(s, j + 1) {
                    lemma_lexed_bounds_multiline_basic(s, k);
                }
            }
        } else {
            lemma_lexed_bounds_multiline_basic(s, j + 1);
        }
    }
}

pub proof fn lemma_lexed_bounds_multiline_literal(s: Seq<char>, j: int)
    requires
        0 <= j,
    ensures
        multiline_literal_body(s, j) matches Ok((t, e)) ==> j < e <= s.len(),
    decreases s.len() - j,
{
    lemma_multiline_literal_step(s, j);
    if !three_at(s, j, '\'') && j < s.len() {
        lemma_lexed_bounds_multiline_literal(s, j + 1);
    }
}

pub proof fn lemma_key_path_progress(s: Seq<char>, i: int)
    requires
        0 <= i,
    ensures
        key_path(s, i) matches Ok((ks, e)) ==> i < e <= s.len() && ks.len() > 0,
{
    lemma_key_segment_bounds(s, i);
    if let Ok((k, e)) = key_segment(s, i) {
        lemma_key_path_from_bounds(s, e);
    }
}

pub proof fn lemma_key_path_from_bounds(s: Seq<char>, i: int)
    requires
        0 <= i <= s.len(),
    ensures
        key_path_from(s, i) matches Ok((ks, e)) ==> i <= e <= s.len(),
    decreases s.len() - i,
{
    reveal(key_path_from);
    lemma_skip_while(s, i, inline_space());
    let w = skip_while(s, i, inline_space());
    if 0 <= i <= w < s.len() && s[w] == '.' {
        lemma_skip_while(s, w + 1, inline_space());
        let w2 = skip_while(s, w + 1, inline_space());
        lemma_key_segment_bounds(s, w2);
        if let Ok((k, e)) = key_segment(s, w2) {
            if i < e <= s.len() {
                lemma_key_path_from_bounds(s, e);
            }
        }
    }
}

impl Parser {
    /// Consume `c` if it is next.
    fn eat(&mut self, c: char) -> (r: bool)
        requires
            old(self).inv(),
        ensures
            final(self).inv(),
            final(self).text() == old(self).text(),
            r == (old(self).at() < old(self).text().len() && old(self).text()[old(self).at()] == c),
            final(self).at() == old(self).at() + if r { 1int } else { 0int },
            final(self).explicit_tables == old(self).explicit_tables,
            final(self).array_tables == old(self).array_tables,
            final(self).dotted_tables == old(self).dotted_tables,
    {
        if self.peek() == Some(c) {
            self.bump();
            true
        } else {
            false
        }
    }

    fn parse_table_header(&mut self, root: &mut Table) -> (r: Result<Vec<String>, Error>)
        requires
            old(self).inv(),
            old(self).at() < old(self).text().len(),
        ensures
            final(self).inv(),
            final(self).text() == old(self).text(),
            r is Ok ==> old(self).at() < final(self).at(),
            crate::toml::keeps_scalars(*old(root), *final(root)),
            (r is Ok) == table_header_ok(*old(self), *old(root)),
            final(self).dotted_tables == old(self).dotted_tables,
            final(self).array_tables == old(self).array_tables,
            r matches Ok(path) ==> final(self).explicit_tables@.len() == old(self).explicit_tables@.len() + 1
                && final(self).explicit_tables@.drop_last() == old(self).explicit_tables@ && crate::text::strings_view(
                final(self).explicit_tables@.last()@,
            ) == crate::text::strings_view(path@),
            r matches Ok(path) ==> ({
                let s = old(self).text();
                key_path(s, skip_while(s, old(self).at() + 1, inline_space())) matches Ok((ks, e)) && ks
                    == crate::text::strings_view(path@) && line_end(
                    s,
                    comment_end(s, skip_while(s, skip_while(s, e, inline_space()) + 1, inline_space())),
                ) == Ok::<int, Seq<char>>(final(self).at())
            }),
            r matches Ok(path) ==> header_effect(*old(root), *final(root), crate::text::strings_view(path@)),
    {
        let ghost s = self.text();
        let ghost a = self.at();
        let (line, col) = (self.line, self.col);
        self.bump();
        self.skip_inline_whitespace();
        assert(self.at() == skip_while(s, a + 1, inline_space()));
        let path = self.parse_key_path()?;
        let ghost e = self.at();
        self.skip_inline_whitespace();
        if !self.eat(']') {
            return Err(self.error_here(owned("expected `]` to close the table header")));
        }
        assert(self.at() == skip_while(s, e, inline_space()) + 1);
        self.expect_line_end()?;
        if holds_path(&self.explicit_tables, &path) || holds_path(&self.dotted_tables, &path) {
            let mut m = owned("table `");
            let name = join_dotted(path.as_slice(), path.len());
            push_str(&mut m, name.as_str());
            push_str(&mut m, "` is defined more than once");
            return Err(Error { message: m, line, col });
        }
        if holds_path(&self.array_tables, &path) {
            let mut m = owned("`");
            let name = join_dotted(path.as_slice(), path.len());
            push_str(&mut m, name.as_str());
            push_str(&mut m, "` is already defined as an array of tables");
            return Err(Error { message: m, line, col });
        }
        let declared = copy_path(path.as_slice(), path.len());
        self.explicit_tables.push(declared);
        let r = edit(root, &path, 0, Edit::Touch, line, col);
        proof {
            assert((|u: Table| change_ok(u, Edit::Touch)) =~= (|u: Table| true));
        }
        r?;
        Ok(path)
    }

    fn parse_array_table_header(&mut self, root: &mut Table) -> (r: Result<Vec<String>, Error>)
        requires
            old(self).inv(),
            old(self).at() + 1 < old(self).text().len(),
        ensures
            final(self).inv(),
            final(self).text() == old(self).text(),
            r is Ok ==> old(self).at() < final(self).at(),
            crate::toml::keeps_scalars(*old(root), *final(root)),
            (r is Ok) == array_header_ok(*old(self), *old(root)),
    {
        let (line, col) = (self.line, self.col);
        self.bump();
        self.bump();
        self.skip_inline_whitespace();
        let ghost k0 = self.at();
        proof {
            lemma_key_path_progress(self.text(), k0);
        }
        let path = self.parse_key_path()?;
        self.skip_inline_whitespace();
        if !(self.eat(']') && self.eat(']')) {
            return Err(self.error_here(owned("expected `]]` to close the array-of-tables header")));
        }
        self.expect_line_end()?;
        let name = join_dotted(path.as_slice(), path.len());
        if holds_path(&self.explicit_tables, &path) || holds_path(&self.dotted_tables, &path) {
            let mut m = owned("`");
            push_str(&mut m, name.as_str());
            push_str(&mut m, "` is already defined as a table");
            return Err(Error { message: m, line, col });
        }
        let declared = copy_path(path.as_slice(), path.len());
        self.array_tables.push(declared);
        let n = path.len();
        let parent = copy_path(path.as_slice(), n - 1);
        let key = owned(path[n - 1].as_str());
        let ghost change = Edit::Append(key, name);
        proof {
            let ks = crate::text::strings_view(path@);
            assert(crate::text::strings_view(parent@) =~= ks.drop_last());
            assert((|u: Table| change_ok(u, change)) =~= (|u: Table| append_ok(u, ks.last())));
        }
        let r = edit(root, &parent, 0, Edit::Append(key, name), line, col);
        r?;
        Ok(path)
    }

    fn parse_keyval(&mut self, root: &mut Table, current: &Vec<String>) -> (r: Result<(), Error>)
        requires
            old(self).inv(),
        ensures
            final(self).inv(),
            final(self).text() == old(self).text(),
            r is Ok ==> old(self).at() < final(self).at(),
            crate::toml::keeps_scalars(*old(root), *final(root)),
            (r is Ok && current@.len() == 0) ==> (key_path(old(self).text(), old(self).at()) matches Ok((ks, e)) ==> (
            ks.len() == 1 ==> (final(root).get_spec(ks[0]) matches Some(n) && value_read(
                old(self).text(),
                value_start(old(self).text(), e),
                n.value,
            )))),
            keyval_outcome(old(self).text(), old(self).at(), crate::text::strings_view(current@), *old(root)) matches Some(
                ok,
            ) ==> (r is Ok) == ok,
            (r is Ok && current@.len() == 0) ==> (scalar_statement(old(self).text(), old(self).at()) matches Some(
                (k, v, n),
            ) ==> final(self).at() == n && forall|x: Seq<char>|
                x != k ==> #[trigger] final(root).get_spec(x) == old(root).get_spec(x)),
            r is Ok ==> (simple_statement(old(self).text(), old(self).at()) matches Some((k, v, n)) ==> final(self).at()
                == n),
            final(self).explicit_tables == old(self).explicit_tables,
            final(self).array_tables == old(self).array_tables,
            simple_statement(old(self).text(), old(self).at()) is Some ==> final(self).dotted_tables == old(
                self,
            ).dotted_tables,
            (r is Ok && current@.len() == 0) ==> top_effect(old(self).text(), old(self).at(), *old(root), *final(root)),
            (r is Ok && current@.len() == 1) ==> keyval_effect(
                old(self).text(),
                old(self).at(),
                current@[0]@,
                *old(root),
                *final(root),
            ),
    {
        let (line, col) = (self.line, self.col);
        let ghost k0 = self.at();
        proof {
            lemma_key_path_progress(self.text(), k0);
        }
        let ghost s = self.text();
        let key_path = self.parse_key_path()?;
        assert(k0 < self.at());
        let ghost e = self.at();
        self.skip_inline_whitespace();
        if !self.eat('=') {
            return Err(self.error_here(owned("expected `=` after the key")));
        }
        self.skip_inline_whitespace();
        let ghost vpos = self.at();
        assert(vpos == value_start(s, e));
        let node = self.parse_value()?;
        assert(value_read(s, vpos, node.value));
        proof {
            if simple_statement(s, k0) is Some && !(value_kind(s, vpos) matches Ok(Kind::Mapping)) {
                if value_kind(s, vpos) matches Ok(k) && (k is Text || k is Flag || k is Number) {
                    lemma_read_scalar(s, vpos, node.value);
                }
                assert(plain_value(node.value));
            }
        }
        self.expect_line_end()?;
        let ghost line_done = self.at();

        let mut full = copy_path(current.as_slice(), current.len());
        assert(current@.take(current@.len() as int) =~= current@);
        assert(key_path@.len() > 0);
        let mut k: usize = 0;
        while k < key_path.len()
            invariant
                k <= key_path@.len(),
                key_path@.len() > 0,
                full@.len() >= k,
                crate::text::strings_view(full@) == crate::text::strings_view(current@) + crate::text::strings_view(
                    key_path@.take(k as int),
                ),
            decreases key_path.len() - k,
        {
            let ghost before = full@;
            full.push(owned(key_path[k].as_str()));
            assert(crate::text::strings_view(full@) =~= crate::text::strings_view(before).push(key_path@[k as int]@));
            assert(crate::text::strings_view(key_path@.take(k + 1)) =~= crate::text::strings_view(key_path@.take(k as int)).push(
                key_path@[k as int]@,
            ));
            k = k + 1;
        }
        assert(key_path@.take(key_path@.len() as int) =~= key_path@);
        let n = full.len();
        let parent = copy_path(full.as_slice(), n - 1);
        let key = owned(full[n - 1].as_str());
        proof {
            if current@.len() == 0 {
                assert(crate::text::strings_view(full@) =~= crate::text::strings_view(key_path@));
                assert(crate::text::strings_view(full@).len() == full@.len());
                assert(crate::text::strings_view(key_path@).len() == key_path@.len());
                if key_path@.len() == 1 {
                    assert(n == 1);
                    assert(crate::text::strings_view(parent@).len() == 0);
                    assert(parent@.len() == 0);
                    assert(key@ == crate::text::strings_view(full@)[0]);
                }
            }
        }
        let ghost single = current@.len() == 0 && key_path@.len() == 1;
        assert(single ==> parent@.len() == 0 && key@ == crate::text::strings_view(key_path@)[0]);
        let name = join_dotted(full.as_slice(), n);

        // Dotted keys implicitly define tables, which may not be reopened.
        let mut depth = current.len();
        proof {
            if simple_statement(s, k0) is Some {
                assert(crate::text::strings_view(key_path@).len() == key_path@.len());
                assert(crate::text::strings_view(parent@).len() == parent@.len());
                assert(crate::text::strings_view(full@).len() == full@.len());
                assert(crate::text::strings_view(current@).len() == current@.len());
            }
        }
        while depth < parent.len()
            invariant
                depth <= parent@.len() || parent@.len() < current@.len(),
                self.explicit_tables == old(self).explicit_tables,
                self.array_tables == old(self).array_tables,
                simple_statement(s, k0) is Some ==> self.dotted_tables == old(self).dotted_tables && depth
                    >= parent@.len(),
                self.inv(),
                self.text() == old(self).text(),
                old(self).at() < self.at(),
                self.at() == line_done,
            decreases parent.len() - depth,
        {
            let prefix = copy_path(parent.as_slice(), depth + 1);
            self.dotted_tables.push(prefix);
            depth = depth + 1;
        }

        let ghost change = Edit::Put(key, node, name, line, col);
        proof {
            let full_view = crate::text::strings_view(current@) + crate::text::strings_view(key_path@);
            assert(crate::text::strings_view(full@) == full_view);
            assert(crate::text::strings_view(parent@) =~= full_view.drop_last());
            assert(key@ == full_view.last());
            assert((|u: Table| change_ok(u, change)) =~= (|u: Table| u.get_spec(full_view.last()) is None));
        }
        let r = edit(root, &parent, 0, Edit::Put(key, node, name, line, col), line, col);
        r
    }

    /// What the `[key]` header of a sectioned document at the parser's
    /// position meets: it is accepted when the document parses, and an
    /// accepted one names a key that holds nothing yet.
    proof fn lemma_header_read(
        p0: Parser,
        r0: Table,
        shs: Seq<Seq<char>>,
        sbs: Seq<(Seq<Seq<char>>, int)>,
        dh: int,
        db: int,
    )
        requires
            section_header(p0.text(), p0.at()) matches Some((name, n)) && 0 <= dh < shs.len() && shs[dh] == name,
            0 <= db <= sbs.len(),
            p0.explicit_tables@.len() == dh,
            forall|i: int| 0 <= i < dh ==> crate::text::strings_view(#[trigger] p0.explicit_tables@[i]@) == seq![shs[i]],
            p0.dotted_tables@.len() == 0,
            p0.array_tables@.len() == 0,
            holds_sections(p0.text(), r0, shs.take(dh), sbs.take(db)),
        ensures
            sections_ok(shs, sbs) ==> table_header_ok(p0, r0),
            table_header_ok(p0, r0) ==> {
                &&& r0.get_spec(shs[dh]) is None
                &&& forall|i: int| 0 <= i < dh ==> #[trigger] shs[i] != shs[dh]
                &&& forall|j: int| 0 <= j < db ==> #[trigger] sbs[j].0 != seq![shs[dh]]
            },
    {
        let s = p0.text();
        let t = p0.at();
        let name = shs[dh];
        if let Ok((ks, e)) = key_path(s, skip_while(s, t + 1, inline_space())) {
            assert(ks =~= seq![name]);
        }
        let ho = shs.take(dh);
        let bo = sbs.take(db);
        if sections_ok(shs, sbs) {
            assert forall|i: int| 0 <= i < ho.len() implies ho[i] != name by {
                assert(shs[i] != shs[dh]);
            }
            assert forall|j: int| 0 <= j < bo.len() implies bo[j].0 != seq![name] by {
                if bo[j].0 == seq![name] {
                    assert(sbs[j].0[0] != shs[dh]);
                }
            }
            assert(r0.get_spec(name) is None);
            assert(!declared(p0.explicit_tables@, seq![name])) by {
                if declared(p0.explicit_tables@, seq![name]) {
                    let i = choose|i: int|
                        0 <= i < p0.explicit_tables@.len() && crate::text::strings_view(#[trigger] p0.explicit_tables@[i]@)
                            == seq![name];
                    assert(seq![shs[i]][0] == shs[i]);
                    assert(shs[i] != shs[dh]);
                }
            }
        }
        if table_header_ok(p0, r0) {
            assert forall|i: int| 0 <= i < dh implies #[trigger] shs[i] != shs[dh] by {
                if shs[i] == name {
                    assert(crate::text::strings_view(p0.explicit_tables@[i]@) == seq![name]);
                }
            }
            assert forall|j: int| 0 <= j < db implies #[trigger] sbs[j].0 != seq![shs[dh]] by {
                if sbs[j].0 == seq![name] {
                    assert(bo[j] == sbs[j]);
                    assert(binding_held(s, r0, bo[j]));
                }
            }
            assert forall|i: int| 0 <= i < ho.len() implies ho[i] != name by {
                assert(ho[i] == shs[i]);
            }
            assert forall|j: int| 0 <= j < bo.len() implies bo[j].0 != seq![name] by {
                assert(bo[j] == sbs[j]);
            }
        }
    }

    /// After an accepted header of a sectioned document, the parser and the
    /// table are those of the document read up to and including it.
    proof fn lemma_header_done(
        p0: Parser,
        p1: Parser,
        r0: Table,
        r1: Table,
        shs: Seq<Seq<char>>,
        sbs: Seq<(Seq<Seq<char>>, int)>,
        dh: int,
        db: int,
        path: Vec<String>,
    )
        requires
            section_header(p0.text(), p0.at()) matches Some((name, n)) && 0 <= dh < shs.len() && shs[dh] == name,
            0 <= db <= sbs.len(),
            p0.explicit_tables@.len() == dh,
            forall|i: int| 0 <= i < dh ==> crate::text::strings_view(#[trigger] p0.explicit_tables@[i]@) == seq![shs[i]],
            sections_ok(shs.take(dh), sbs.take(db)),
            holds_sections(p0.text(), r0, shs.take(dh), sbs.take(db)),
            r0.get_spec(shs[dh]) is None,
            forall|i: int| 0 <= i < dh ==> #[trigger] shs[i] != shs[dh],
            forall|j: int| 0 <= j < db ==> #[trigger] sbs[j].0 != seq![shs[dh]],
            p1.explicit_tables@.len() == p0.explicit_tables@.len() + 1,
            p1.explicit_tables@.drop_last() == p0.explicit_tables@,
            crate::text::strings_view(p1.explicit_tables@.last()@) == crate::text::strings_view(path@),
            ({
                let s = p0.text();
                key_path(s, skip_while(s, p0.at() + 1, inline_space())) matches Ok((ks, e)) && ks
                    == crate::text::strings_view(path@) && line_end(
                    s,
                    comment_end(s, skip_while(s, skip_while(s, e, inline_space()) + 1, inline_space())),
                ) == Ok::<int, Seq<char>>(p1.at())
            }),
            header_effect(r0, r1, crate::text::strings_view(path@)),
        ensures
            crate::text::strings_view(path@) == seq![shs[dh]],
            path@.len() == 1,
            path@[0]@ == shs[dh],
            p1.at() == section_header(p0.text(), p0.at())->Some_0.1,
            sections_ok(shs.take(dh + 1), sbs.take(db)),
            holds_sections(p0.text(), r1, shs.take(dh + 1), sbs.take(db)),
            forall|i: int|
                0 <= i < dh + 1 ==> crate::text::strings_view(#[trigger] p1.explicit_tables@[i]@) == seq![shs[i]],
    {
        let s = p0.text();
        let t = p0.at();
        let name = shs[dh];
        if let Ok((ks, e)) = key_path(s, skip_while(s, t + 1, inline_space())) {
            assert(ks =~= seq![name]);
        }
        assert(crate::text::strings_view(path@).len() == path@.len());
        assert(crate::text::strings_view(path@)[0] == path@[0]@);
        lemma_header_step(s, r0, r1, shs, sbs, dh, db);
        let hn = shs.take(dh + 1);
        let ho = shs.take(dh);
        let bo = sbs.take(db);
        assert(hn == ho.push(name));
        assert forall|i: int, j: int| 0 <= i < j < hn.len() implies #[trigger] hn[i] != #[trigger] hn[j] by {
            assert(hn[i] == shs[i] && hn[j] == shs[j]);
            if j < dh {
                assert(ho[i] == shs[i] && ho[j] == shs[j]);
            }
        }
        assert forall|i: int, j: int|
            0 <= i < hn.len() && 0 <= j < bo.len() && bo[j].0.len() == 1 implies #[trigger] bo[j].0[0] != #[trigger] hn[i] by {
            assert(bo[j] == sbs[j]);
            if i < dh {
                assert(hn[i] == ho[i]);
            } else if bo[j].0[0] == name {
                assert(bo[j].0 =~= seq![name]);
            }
        }
        assert forall|i: int| 0 <= i < dh + 1 implies crate::text::strings_view(#[trigger] p1.explicit_tables@[i]@) == seq![shs[i]] by {
            if i < dh {
                assert(p1.explicit_tables@[i] == p1.explicit_tables@.drop_last()[i]);
            }
        }
    }

    #[verifier::rlimit(80)]
    #[verifier::spinoff_prover]
    pub fn parse_document(&mut self) -> (r: Result<Table, Error>)
        requires
            old(self).inv(),
            old(self).at() == 0,
            old(self).fresh(),
        ensures
            sectioned(old(self).text(), 0, seq![]) matches Some((hs, bs)) ==> {
                &&& (r is Ok) == sections_ok(hs, bs)
                &&& r matches Ok(t) ==> holds_sections(old(self).text(), t, hs, bs)
            },
            trivia_end(old(self).text(), 0) == old(self).text().len() ==> (r matches Ok(t) && t.items().len() == 0),
            r matches Ok(t) ==> (first_binding(old(self).text()) matches Some((k, i)) ==> (t.get_spec(k) matches Some(
                n,
            ) && value_read(old(self).text(), i, n.value))),
            flat_bindings(old(self).text(), 0) matches Some(bs) ==> {
                &&& (r is Ok) == distinct_keys(bs)
                &&& r matches Ok(t) ==> forall|j: int|
                    0 <= j < bs.len() ==> (t.get_spec(#[trigger] bs[j].0) matches Some(n) && value_read(
                        old(self).text(),
                        bs[j].1,
                        n.value,
                    ))
                &&& r matches Ok(t) ==> forall|k: Seq<char>|
                    (forall|j: int| 0 <= j < bs.len() ==> bs[j].0 != k) ==> #[trigger] t.get_spec(k) is None
            },
    {
        let ghost s = self.text();
        let mut root = Table::new();
        let mut current: Vec<String> = Vec::new();
        let ghost flat = flat_bindings(s, 0);
        let ghost bs = flat->0;
        let ghost mut done: int = 0;
        let ghost sect = sectioned(s, 0, seq![]);
        let ghost shs = sect->Some_0.0;
        let ghost sbs = sect->Some_0.1;
        let ghost mut dh: int = 0;
        let ghost mut db: int = 0;
        proof {
            if sect is Some {
                assert(shs.skip(0) =~= shs);
                assert(sbs.skip(0) =~= sbs);
                assert(shs.take(0) =~= Seq::<Seq<char>>::empty());
                assert(sbs.take(0) =~= Seq::<(Seq<Seq<char>>, int)>::empty());
                assert(crate::text::strings_view(current@) =~= Seq::<Seq<char>>::empty());
                assert(forall|k: Seq<char>| #[trigger] root.get_spec(k) is None);
            }
        }
        proof {
            if flat is Some {
                assert(bs.skip(0) =~= bs);
                assert(bs.take(0) =~= Seq::<(Seq<char>, int)>::empty());
            }
        }
        loop
            invariant_except_break
                self.at() == 0 ==> root.items().len() == 0,
                self.at() == 0 || self.at() > trivia_end(s, 0),
                self.at() == 0 ==> current@.len() == 0,
            invariant
                self.inv(),
                self.text() == s,
                s == old(self).text(),
                self.at() > 0 ==> (first_binding(s) matches Some((k, i)) ==> (root.get_spec(k) matches Some(n)
                    && crate::toml::is_scalar(n.value) && value_read(s, i, n.value))),
                flat == flat_bindings(s, 0),
                bs == flat->0,
                flat is Some ==> {
                    &&& 0 <= done <= bs.len()
                    &&& flat_bindings(s, self.at()) == Some(bs.skip(done))
                    &&& current@.len() == 0
                    &&& distinct_keys(bs.take(done))
                    &&& forall|j: int|
                        0 <= j < done ==> (root.get_spec(#[trigger] bs[j].0) matches Some(n) && crate::toml::is_scalar(
                            n.value,
                        ) && value_read(s, bs[j].1, n.value))
                    &&& forall|k: Seq<char>|
                        (forall|j: int| 0 <= j < done ==> bs[j].0 != k) ==> #[trigger] root.get_spec(k) is None
                },
                sect == sectioned(s, 0, seq![]),
                shs == sect->Some_0.0,
                sbs == sect->Some_0.1,
                sect is Some ==> {
                    &&& 0 <= dh <= shs.len()
                    &&& 0 <= db <= sbs.len()
                    &&& sectioned(s, self.at(), crate::text::strings_view(current@)) == Some((shs.skip(dh), sbs.skip(db)))
                    &&& current@.len() <= 1
                    &&& (current@.len() == 0) == (dh == 0)
                    &&& dh > 0 ==> current@[0]@ == shs[dh - 1]
                    &&& self.explicit_tables@.len() == dh
                    &&& forall|i: int|
                        0 <= i < dh ==> crate::text::strings_view(#[trigger] self.explicit_tables@[i]@) == seq![shs[i]]
                    &&& self.dotted_tables@.len() == 0
                    &&& self.array_tables@.len() == 0
                    &&& sections_ok(shs.take(dh), sbs.take(db))
                    &&& holds_sections(s, root, shs.take(dh), sbs.take(db))
                },
            ensures
                self.at() >= s.len(),
                trivia_end(s, 0) == s.len() ==> root.items().len() == 0,
                first_binding(s) matches Some((k, i)) ==> (root.get_spec(k) matches Some(n) && value_read(
                    s,
                    i,
                    n.value,
                )),
            decreases self.text().len() - self.at(),
        {
            let ghost from = self.at();
            let ghost before = root;
            let ghost cur = crate::text::strings_view(current@);
            self.skip_trivia();
            proof {
                if sect is Some && self.at() < s.len() {
                    lemma_sectioned_step(s, from, cur, shs.skip(dh), sbs.skip(db));
                }
            }
            proof {
                lemma_trivia_end(s, from);
                if flat is Some && self.at() < s.len() {
                    lemma_flat_step(s, from, bs.skip(done));
                    lemma_statement_outcome(s, self.at(), root);
                }
            }
            match self.peek() {
                None => {
                    proof {
                        if from == 0 {
                            assert(trivia_end(s, 0) == s.len());
                        }
                    }
                    break;
                },
                Some(c) => {
                    if c == '[' {
                        if self.peek_at(1) == Some('[') {
                            assert(sect is None);
                            current = self.parse_array_table_header(&mut root)?;
                        } else {
                            let ghost r0 = root;
                            let ghost p0 = *self;
                            let hr = self.parse_table_header(&mut root);
                            proof {
                                if sect is Some {
                                    assert(shs.skip(dh)[0] == shs[dh]);
                                    Self::lemma_header_read(p0, r0, shs, sbs, dh, db);
                                }
                            }
                            let path = hr?;
                            proof {
                                if sect is Some {
                                    Self::lemma_header_done(p0, *self, r0, root, shs, sbs, dh, db, path);
                                    assert(shs.skip(dh).skip(1) =~= shs.skip(dh + 1));
                                    dh = dh + 1;
                                }
                            }
                            current = path;
                        }
                    } else {
                        let ghost kv_done = done;
                        let ghost t0 = self.at();
                        proof {
                            if sect is Some {
                                assert(sbs.skip(db)[0] == sbs[db]);
                                if dh == 0 {
                                    assert(crate::text::strings_view(current@) =~= Seq::<Seq<char>>::empty());
                                    lemma_top_keyval(s, t0, before, shs, sbs, db);
                                } else {
                                    assert(crate::text::strings_view(current@) =~= seq![shs[dh - 1]]);
                                    lemma_section_keyval(s, t0, shs[dh - 1], before, shs, sbs, dh, db);
                                }
                            }
                        }
                        let outcome = self.parse_keyval(&mut root, &current);
                        proof {
                            if flat is Some && outcome is Err {
                                let j = choose|j: int| 0 <= j < kv_done && bs[j].0 == bs[kv_done].0;
                                assert(bs.skip(kv_done)[0] == bs[kv_done]);
                            }
                        }
                        outcome?;
                        proof {
                            if flat is Some {
                                assert(bs.skip(kv_done)[0] == bs[kv_done]);
                                assert(bs.skip(kv_done).skip(1) =~= bs.skip(kv_done + 1));
                                lemma_read_scalar(s, bs[kv_done].1, root.get_spec(bs[kv_done].0)->0.value);
                                assert(bs.take(kv_done + 1) =~= bs.take(kv_done).push(bs[kv_done]));
                                done = kv_done + 1;
                            }
                        }
                        proof {
                            if sect is Some {
                                let k = simple_statement(s, t0)->Some_0.0;
                                let v = simple_statement(s, t0)->Some_0.1;
                                if dh == 0 {
                                    lemma_top_step(s, before, root, shs, sbs, dh, db, k);
                                } else {
                                    lemma_section_step(s, before, root, shs, sbs, dh, db, shs[dh - 1], k);
                                }
                                lemma_bindings_extend(shs, sbs, dh, db);
                                assert(sbs.skip(db).skip(1) =~= sbs.skip(db + 1));
                                db = db + 1;
                            }
                        }
                        proof {
                            if from == 0 {
                                if let Some((k, i)) = first_binding(s) {
                                    let n = root.get_spec(k)->0;
                                    lemma_read_scalar(s, i, n.value);
                                }
                            }
                        }
                    }
                    proof {
                        if from > 0 {
                            if let Some((k, i)) = first_binding(s) {
                                assert(before.get_spec(k) matches Some(n) && crate::toml::is_scalar(n.value));
                                assert(root.get_spec(k) == before.get_spec(k));
                            }
                        }
                    }
                },
            }
        }
        proof {
            if flat is Some {
                assert(bs.skip(done).len() == 0);
                assert(bs.take(done) =~= bs);
            }
        }
        Ok(root)
    }
}

} // verus!
