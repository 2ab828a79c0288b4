//! The stateful text emitter: accumulates output text, tracks a non-negative
//! indentation depth and a stack of open delimiters, and guarantees that
//! closing every delimiter restores the depth to the pre-block baseline.

use crate::enums::{Delimiters, NewLineState};
use vstd::prelude::*;

verus! {

/// A sequence of `n` tab characters.
pub open spec fn tab_chars(n: nat) -> Seq<char> {
    Seq::new(n, |i: int| '\t')
}

/// A newline followed by `n` tabs: what every line-ending operation appends
/// in anticipation of the next line's text.
pub open spec fn nl_indent(n: nat) -> Seq<char> {
    seq!['\n'] + tab_chars(n)
}

/// Concatenation of a sequence of strings.
pub open spec fn cat_strs(v: Seq<Seq<char>>) -> Seq<char>
    decreases v.len(),
{
    if v.len() == 0 {
        Seq::empty()
    } else {
        cat_strs(v.drop_last()) + v.last()
    }
}

/// The views of a sequence of string slices.
pub open spec fn strs_view(v: Seq<&str>) -> Seq<Seq<char>> {
    v.map_values(|s: &str| s@)
}

/// The indentation depth after a newline shift.
pub open spec fn shifted_tabs(tabs: nat, state: NewLineState) -> nat {
    match state {
        NewLineState::Current => tabs,
        NewLineState::ShiftRight => tabs + 1,
        NewLineState::ShiftLeft => (tabs - 1) as nat,
    }
}

/// The glyph appended when a delimiter is opened.
pub open spec fn open_glyph(d: Delimiters) -> Seq<char> {
    match d {
        Delimiters::Bracket => " {"@,
        Delimiters::Parenthesis => "("@,
    }
}

/// The glyph appended when a delimiter is closed.
pub open spec fn close_glyph(d: Delimiters) -> Seq<char> {
    match d {
        Delimiters::Bracket => "}"@,
        Delimiters::Parenthesis => ")"@,
    }
}

/// Holds when `t` ends with a newline followed by exactly the current
/// indentation, i.e. the text is between lines.
pub open spec fn ends_with_nl_indent(t: Seq<char>, n: nat) -> bool {
    &&& t.len() >= n + 1
    &&& t.subrange(t.len() - n - 1, t.len() as int) == nl_indent(n)
}

/// The text after the delimiter-closing loop has popped every open
/// delimiter: for each one, the trailing tab is removed and the matching
/// closing glyph plus a shallower line break is appended.
pub open spec fn spec_close_loop(text: Seq<char>, delims: Seq<Delimiters>, tabs: nat) -> Seq<char>
    decreases delims.len(),
{
    if delims.len() == 0 {
        text
    } else {
        spec_close_loop(
            text.drop_last() + close_glyph(delims.last()) + nl_indent((tabs - 1) as nat),
            delims.drop_last(),
            (tabs - 1) as nat,
        )
    }
}

/// The complete effect of `close_all_delimiters`: close every delimiter,
/// trim the one trailing newline, and append the final terminator.
pub open spec fn spec_close_all(text: Seq<char>, delims: Seq<Delimiters>, tabs: nat) -> Seq<char> {
    spec_close_loop(text, delims, tabs).drop_last() + ";\n"@
}

/// The views of a sequence of owned strings.
pub open spec fn strings_view(v: Seq<String>) -> Seq<Seq<char>> {
    v.map_values(|s: String| s@)
}

/// Concatenating one string.
pub proof fn lemma_cat1(a: Seq<char>)
    ensures
        cat_strs(seq![a]) == a,
{
    assert(seq![a].drop_last() =~= Seq::<Seq<char>>::empty());
    assert(cat_strs(Seq::<Seq<char>>::empty()) == Seq::<char>::empty());
    assert(cat_strs(seq![a]) =~= a);
}

/// Concatenating two strings.
pub proof fn lemma_cat2(a: Seq<char>, b: Seq<char>)
    ensures
        cat_strs(seq![a, b]) == a + b,
{
    lemma_cat1(a);
    assert(seq![a, b].drop_last() =~= seq![a]);
    assert(cat_strs(seq![a, b]) =~= a + b);
}

/// Concatenating three strings.
pub proof fn lemma_cat3(a: Seq<char>, b: Seq<char>, c: Seq<char>)
    ensures
        cat_strs(seq![a, b, c]) == a + b + c,
{
    lemma_cat2(a, b);
    assert(seq![a, b, c].drop_last() =~= seq![a, b]);
    assert(cat_strs(seq![a, b, c]) =~= a + b + c);
}

/// Concatenating four strings.
pub proof fn lemma_cat4(a: Seq<char>, b: Seq<char>, c: Seq<char>, d: Seq<char>)
    ensures
        cat_strs(seq![a, b, c, d]) == a + b + c + d,
{
    lemma_cat3(a, b, c);
    assert(seq![a, b, c, d].drop_last() =~= seq![a, b, c]);
    assert(cat_strs(seq![a, b, c, d]) =~= a + b + c + d);
}

/// Concatenating five strings.
pub proof fn lemma_cat5(a: Seq<char>, b: Seq<char>, c: Seq<char>, d: Seq<char>, e: Seq<char>)
    ensures
        cat_strs(seq![a, b, c, d, e]) == a + b + c + d + e,
{
    lemma_cat4(a, b, c, d);
    assert(seq![a, b, c, d, e].drop_last() =~= seq![a, b, c, d]);
    assert(cat_strs(seq![a, b, c, d, e]) =~= a + b + c + d + e);
}

/// A one-token list.
pub fn toks1<'a>(a: &'a str) -> (v: Vec<&'a str>)
    ensures
        v@ == seq![a],
{
    let mut v: Vec<&'a str> = Vec::new();
    v.push(a);
    proof {
        assert(v@ =~= seq![a]);
    }
    v
}

/// A two-token list.
pub fn toks2<'a>(a: &'a str, b: &'a str) -> (v: Vec<&'a str>)
    ensures
        v@ == seq![a, b],
{
    let mut v: Vec<&'a str> = Vec::new();
    v.push(a);
    v.push(b);
    proof {
        assert(v@ =~= seq![a, b]);
    }
    v
}

/// A four-token list.
pub fn toks4<'a>(a: &'a str, b: &'a str, c: &'a str, d: &'a str) -> (v: Vec<&'a str>)
    ensures
        v@ == seq![a, b, c, d],
{
    let mut v: Vec<&'a str> = Vec::new();
    v.push(a);
    v.push(b);
    v.push(c);
    v.push(d);
    proof {
        assert(v@ =~= seq![a, b, c, d]);
    }
    v
}

/// A five-token list.
pub fn toks5<'a>(a: &'a str, b: &'a str, c: &'a str, d: &'a str, e: &'a str) -> (v: Vec<&'a str>)
    ensures
        v@ == seq![a, b, c, d, e],
{
    let mut v: Vec<&'a str> = Vec::new();
    v.push(a);
    v.push(b);
    v.push(c);
    v.push(d);
    v.push(e);
    proof {
        assert(v@ =~= seq![a, b, c, d, e]);
    }
    v
}

/// A copy of a string list, equal view for view.
pub fn clone_strings(v: &Vec<String>) -> (r: Vec<String>)
    ensures
        strings_view(r@) == strings_view(v@),
{
    let ghost sv = strings_view(v@);
    let mut r: Vec<String> = Vec::new();
    let mut i: usize = 0;
    proof {
        assert(strings_view(r@) =~= sv.take(0));
    }
    while i < v.len()
        invariant
            i <= v@.len(),
            sv == strings_view(v@),
            sv.len() == v@.len(),
            strings_view(r@) == sv.take(i as int),
        decreases v@.len() - i,
    {
        let ghost before = strings_view(r@);
        let elem = v[i].clone();
        proof {
            assert(elem@ == sv[i as int]);
        }
        r.push(elem);
        proof {
            assert(strings_view(r@) =~= before.push(elem@));
            assert(sv.take(i + 1) =~= sv.take(i as int).push(sv[i as int]));
        }
        i = i + 1;
    }
    proof {
        assert(sv.take(v@.len() as int) =~= sv);
    }
    r
}

/// Character-for-character string equality.
pub fn str_eq(a: &str, b: &str) -> (r: bool)
    ensures
        r == (a@ == b@),
{
    let la = a.unicode_len();
    let lb = b.unicode_len();
    if la != lb {
        return false;
    }
    let mut i: usize = 0;
    while i < la
        invariant
            i <= la,
            la as nat == a@.len(),
            la as nat == b@.len(),
            forall|m: int| 0 <= m < i ==> a@[m] == b@[m],
        decreases la - i,
    {
        if a.get_char(i) != b.get_char(i) {
            return false;
        }
        i = i + 1;
    }
    proof {
        assert(a@ =~= b@);
    }
    true
}

/// Concatenation of character sequences is associative.
pub proof fn lemma_assoc(a: Seq<char>, b: Seq<char>, c: Seq<char>)
    ensures
        (a + b) + c == a + (b + c),
{
    assert((a + b) + c =~= a + (b + c));
}

/// Regrouping of a terminated two-token line appended after `before`.
pub proof fn lemma_regroup2(before: Seq<char>, a: Seq<char>, b: Seq<char>, term: Seq<char>, n: nat)
    ensures
        before + (a + b) + term + nl_indent(n) == before + (a + b + term + nl_indent(n)),
{
    assert(before + (a + b) + term + nl_indent(n) =~= before + (a + b + term + nl_indent(n)));
}

/// Regrouping of a doc-prefixed, terminated four-token line appended after
/// `before`.
pub proof fn lemma_regroup4(
    before: Seq<char>,
    d: Seq<char>,
    a: Seq<char>,
    b: Seq<char>,
    c: Seq<char>,
    e: Seq<char>,
    term: Seq<char>,
    n: nat,
)
    ensures
        before + d + (a + b + c + e) + term + nl_indent(n) == before + (d + a + b + c + e + term
            + nl_indent(n)),
{
    assert(before + d + (a + b + c + e) + term + nl_indent(n) =~= before + (d + a + b + c + e
        + term + nl_indent(n)));
}

/// Regrouping of a doc-prefixed, terminated five-token line appended after
/// `before`.
pub proof fn lemma_regroup5(
    before: Seq<char>,
    d: Seq<char>,
    a: Seq<char>,
    b: Seq<char>,
    c: Seq<char>,
    e: Seq<char>,
    f: Seq<char>,
    term: Seq<char>,
    n: nat,
)
    ensures
        before + d + (a + b + c + e + f) + term + nl_indent(n) == before + (d + a + b + c + e + f
            + term + nl_indent(n)),
{
    assert(before + d + (a + b + c + e + f) + term + nl_indent(n) =~= before + (d + a + b + c + e
        + f + term + nl_indent(n)));
}

/// The text contributed by a one-token list.
pub proof fn lemma_cat_view1(a: &str)
    ensures
        cat_strs(strs_view(seq![a])) == a@,
{
    assert(strs_view(seq![a]) =~= seq![a@]);
    lemma_cat1(a@);
}

/// The text contributed by a two-token list.
pub proof fn lemma_cat_view2(a: &str, b: &str)
    ensures
        cat_strs(strs_view(seq![a, b])) == a@ + b@,
{
    assert(strs_view(seq![a, b]) =~= seq![a@, b@]);
    lemma_cat2(a@, b@);
}

/// The text contributed by a four-token list.
pub proof fn lemma_cat_view4(a: &str, b: &str, c: &str, d: &str)
    ensures
        cat_strs(strs_view(seq![a, b, c, d])) == a@ + b@ + c@ + d@,
{
    assert(strs_view(seq![a, b, c, d]) =~= seq![a@, b@, c@, d@]);
    lemma_cat4(a@, b@, c@, d@);
}

/// The text contributed by a five-token list.
pub proof fn lemma_cat_view5(a: &str, b: &str, c: &str, d: &str, e: &str)
    ensures
        cat_strs(strs_view(seq![a, b, c, d, e])) == a@ + b@ + c@ + d@ + e@,
{
    assert(strs_view(seq![a, b, c, d, e]) =~= seq![a@, b@, c@, d@, e@]);
    lemma_cat5(a@, b@, c@, d@, e@);
}

/// Appending a member line (anything followed by a line break at the same
/// depth) keeps the text between lines at that depth.
pub proof fn lemma_line_keeps_shape(text: Seq<char>, body: Seq<char>, n: nat)
    ensures
        ends_with_nl_indent(text + body + nl_indent(n), n),
{
    let t = text + body + nl_indent(n);
    assert(t.subrange(t.len() - n - 1, t.len() as int) =~= nl_indent(n));
}

/// For formatting the output text of one emitted block.
pub struct StringFormatter {
    pub string_container: String,
    pub current_number_of_tabs: u16,
    pub delimiters: Vec<Delimiters>,
}

impl StringFormatter {
    /// The current indentation depth: the number of tabs each new line is
    /// given.
    pub open spec fn tabs(self) -> nat {
        self.current_number_of_tabs as nat
    }

    /// The stack of currently open delimiters.
    pub open spec fn delims(self) -> Seq<Delimiters> {
        self.delimiters@
    }

    /// The accumulated output text.
    pub open spec fn text(self) -> Seq<char> {
        self.string_container@
    }

    /// The emitter is balanced when each open delimiter accounts for exactly
    /// one indentation unit and the text sits between lines. `closeAll` is
    /// callable from every balanced state, and every block-building
    /// operation used by the renderers preserves balance.
    pub open spec fn balanced(self) -> bool {
        &&& self.delims().len() == self.tabs()
        &&& ends_with_nl_indent(self.text(), self.tabs())
    }

    /// For a new block the current number of tabs should be 0.
    pub fn new(string_container: String, current_number_of_tabs: u16) -> (r: StringFormatter)
        ensures
            r.text() == string_container@,
            r.tabs() == current_number_of_tabs as nat,
            r.delims() == Seq::<Delimiters>::empty(),
    {
        StringFormatter { string_container, current_number_of_tabs, delimiters: Vec::new() }
    }

    /// The current indentation depth.
    pub fn indent_depth(&self) -> (r: u16)
        ensures
            r as nat == self.tabs(),
    {
        self.current_number_of_tabs
    }

    /// Adds a line break: shifts the depth as requested, then appends a
    /// newline and the new indentation in anticipation of more text.
    fn add_newline(&mut self, state: NewLineState)
        requires
            (state matches NewLineState::ShiftLeft ==> old(self).tabs() >= 1),
            (state matches NewLineState::ShiftRight ==> old(self).tabs() < u16::MAX),
        ensures
            final(self).tabs() == shifted_tabs(old(self).tabs(), state),
            final(self).delims() == old(self).delims(),
            final(self).text() == old(self).text() + nl_indent(final(self).tabs()),
    {
        match state {
            NewLineState::Current => {}
            NewLineState::ShiftRight => {
                self.current_number_of_tabs = self.current_number_of_tabs + 1;
            }
            NewLineState::ShiftLeft => {
                self.current_number_of_tabs = self.current_number_of_tabs - 1;
            }
        }
        self.string_container.append("\n");
        proof {
            reveal_strlit("\n");
            assert(self.string_container@ =~= old(self).text() + seq!['\n'] + tab_chars(0));
        }
        let n = self.current_number_of_tabs;
        let mut i: u16 = 0;
        while i < n
            invariant
                i <= n,
                n as nat == self.tabs(),
                self.delimiters@ == old(self).delims(),
                self.current_number_of_tabs == n,
                self.string_container@ == old(self).text() + seq!['\n'] + tab_chars(i as nat),
            decreases n - i,
        {
            self.string_container.append("\t");
            proof {
                reveal_strlit("\t");
                assert(old(self).text() + seq!['\n'] + tab_chars(i as nat) + "\t"@ =~= old(
                    self,
                ).text() + seq!['\n'] + tab_chars((i + 1) as nat));
            }
            i = i + 1;
        }
        proof {
            assert(self.string_container@ =~= old(self).text() + nl_indent(self.tabs()));
        }
    }

    /// Appends each string of `vec` in order.
    fn add_text_from_vec(&mut self, vec: Vec<&str>)
        ensures
            final(self).tabs() == old(self).tabs(),
            final(self).delims() == old(self).delims(),
            final(self).text() == old(self).text() + cat_strs(strs_view(vec@)),
    {
        let ghost vs = strs_view(vec@);
        let mut i: usize = 0;
        proof {
            assert(cat_strs(vs.take(0)) =~= Seq::<char>::empty());
            assert(self.string_container@ =~= old(self).text() + cat_strs(vs.take(0)));
        }
        while i < vec.len()
            invariant
                i <= vec.len(),
                vs == strs_view(vec@),
                vs.len() == vec@.len(),
                self.current_number_of_tabs == old(self).current_number_of_tabs,
                self.delimiters@ == old(self).delims(),
                self.string_container@ == old(self).text() + cat_strs(vs.take(i as int)),
            decreases vec.len() - i,
        {
            self.string_container.append(vec[i]);
            proof {
                assert(vs.take(i + 1).drop_last() =~= vs.take(i as int));
                assert(vs.take(i + 1).last() == vec@[i as int]@);
                assert(self.string_container@ =~= old(self).text() + cat_strs(vs.take(i + 1)));
            }
            i = i + 1;
        }
        proof {
            assert(vs.take(vec@.len() as int) =~= vs);
        }
    }

    /// Appends the given text, then a line break with the requested shift.
    pub fn add_text_and_then_line(&mut self, vec: Vec<&str>, state: NewLineState)
        requires
            vec@.len() > 0,
            (state matches NewLineState::ShiftLeft ==> old(self).tabs() >= 1),
            (state matches NewLineState::ShiftRight ==> old(self).tabs() < u16::MAX),
        ensures
            final(self).tabs() == shifted_tabs(old(self).tabs(), state),
            final(self).delims() == old(self).delims(),
            final(self).text() == old(self).text() + cat_strs(strs_view(vec@)) + nl_indent(
                final(self).tabs(),
            ),
    {
        self.add_text_from_vec(vec);
        self.add_newline(state);
    }

    /// Appends the given text, opens a delimiter, then adds a line break
    /// with the requested shift.
    pub fn add_text_delimiter_then_line(
        &mut self,
        vec: Vec<&str>,
        delimiter: Delimiters,
        state: NewLineState,
    )
        requires
            (state matches NewLineState::ShiftLeft ==> old(self).tabs() >= 1),
            (state matches NewLineState::ShiftRight ==> old(self).tabs() < u16::MAX),
        ensures
            final(self).tabs() == shifted_tabs(old(self).tabs(), state),
            final(self).delims() == old(self).delims().push(delimiter),
            final(self).text() == old(self).text() + cat_strs(strs_view(vec@)) + open_glyph(
                delimiter,
            ) + nl_indent(final(self).tabs()),
    {
        self.add_text_from_vec(vec);
        match delimiter {
            Delimiters::Bracket => self.add_start_bracket(),
            Delimiters::Parenthesis => {
                self.add_start_parenthesis();
            }
        }
        self.add_newline(state);
    }

    /// Opens a parenthesis: pushes it on the delimiter stack and appends its
    /// opening glyph.
    fn add_start_parenthesis(&mut self)
        ensures
            final(self).tabs() == old(self).tabs(),
            final(self).delims() == old(self).delims().push(Delimiters::Parenthesis),
            final(self).text() == old(self).text() + open_glyph(Delimiters::Parenthesis),
    {
        self.delimiters.push(Delimiters::Parenthesis);
        self.string_container.append("(");
    }

    /// Opens a bracket: pushes it on the delimiter stack and appends its
    /// opening glyph.
    pub fn add_start_bracket(&mut self)
        ensures
            final(self).tabs() == old(self).tabs(),
            final(self).delims() == old(self).delims().push(Delimiters::Bracket),
            final(self).text() == old(self).text() + open_glyph(Delimiters::Bracket),
    {
        self.delimiters.push(Delimiters::Bracket);
        self.string_container.append(" {");
    }

    /// After a statement terminator the next line stays at the same depth.
    fn add_colon(&mut self)
        ensures
            final(self).tabs() == old(self).tabs(),
            final(self).delims() == old(self).delims(),
            final(self).text() == old(self).text() + ";"@ + nl_indent(old(self).tabs()),
    {
        self.string_container.append(";");
        self.add_newline(NewLineState::Current);
    }

    /// After an item terminator the next line stays at the same depth.
    fn add_comma(&mut self)
        ensures
            final(self).tabs() == old(self).tabs(),
            final(self).delims() == old(self).delims(),
            final(self).text() == old(self).text() + ","@ + nl_indent(old(self).tabs()),
    {
        self.string_container.append(",");
        self.add_newline(NewLineState::Current);
    }

    /// Appends the given text terminated by `";"` and a same-depth line
    /// break.
    pub fn add_text_and_colon(&mut self, vec: Vec<&str>)
        ensures
            final(self).tabs() == old(self).tabs(),
            final(self).delims() == old(self).delims(),
            final(self).text() == old(self).text() + cat_strs(strs_view(vec@)) + ";"@ + nl_indent(
                old(self).tabs(),
            ),
    {
        self.add_text_from_vec(vec);
        self.add_colon();
    }

    /// Appends the given text terminated by `","` and a same-depth line
    /// break.
    pub fn add_text_and_comma(&mut self, vec: Vec<&str>)
        ensures
            final(self).tabs() == old(self).tabs(),
            final(self).delims() == old(self).delims(),
            final(self).text() == old(self).text() + cat_strs(strs_view(vec@)) + ","@ + nl_indent(
                old(self).tabs(),
            ),
    {
        self.add_text_from_vec(vec);
        self.add_comma();
    }

    /// Removes the last character of the accumulated text.
    fn drop_last_char(&mut self)
        requires
            old(self).text().len() >= 1,
        ensures
            final(self).tabs() == old(self).tabs(),
            final(self).delims() == old(self).delims(),
            final(self).text() == old(self).text().drop_last(),
    {
        let l = self.string_container.as_str().unicode_len();
        let shorter = self.string_container.as_str().substring_char(0, l - 1).to_owned();
        self.string_container = shorter;
        proof {
            assert(self.string_container@ =~= old(self).text().drop_last());
        }
    }

    /// Pops every open delimiter: for each, one trailing indentation unit is
    /// removed and the matching closing glyph plus a shallower line break is
    /// appended; once the stack is empty, the one trailing newline is
    /// trimmed and the final terminator appended. Restores the indentation
    /// depth to the pre-block baseline: the depth the emitter was created
    /// with, one unit below the depth per open delimiter.
    pub fn close_all_delimiters(&mut self)
        requires
            old(self).balanced(),
        ensures
            final(self).tabs() == 0,
            final(self).tabs() == old(self).tabs() - old(self).delims().len(),
            final(self).delims() == Seq::<Delimiters>::empty(),
            final(self).text() == spec_close_all(
                old(self).text(),
                old(self).delims(),
                old(self).tabs(),
            ),
    {
        loop
            invariant
                self.balanced(),
                spec_close_loop(self.text(), self.delims(), self.tabs()) == spec_close_loop(
                    old(self).text(),
                    old(self).delims(),
                    old(self).tabs(),
                ),
            ensures
                self.delims().len() == 0,
                self.tabs() == 0,
                self.text() == spec_close_loop(old(self).text(), old(self).delims(), old(self).tabs()),
            decreases self.delimiters@.len(),
        {
            let popped = self.delimiters.pop();
            match popped {
                None => {
                    break ;
                }
                Some(delimiter) => {
                    proof {
                        assert(self.string_container@.len() >= 1);
                    }
                    let ghost before = *self;
                    self.drop_last_char();
                    let glyph: &str = match delimiter {
                        Delimiters::Parenthesis => ")",
                        Delimiters::Bracket => "}",
                    };
                    let mut tokens: Vec<&str> = Vec::new();
                    tokens.push(glyph);
                    proof {
                        assert(glyph@ == close_glyph(delimiter));
                        assert(strs_view(tokens@) =~= seq![glyph@]);
                        assert(strs_view(tokens@).drop_last() =~= Seq::<Seq<char>>::empty());
                        assert(cat_strs(Seq::<Seq<char>>::empty()) == Seq::<char>::empty());
                        assert(cat_strs(strs_view(tokens@)) =~= glyph@);
                    }
                    self.add_text_and_then_line(tokens, NewLineState::ShiftLeft);
                    proof {
                        let g = close_glyph(delimiter);
                        assert(self.text() =~= before.text().drop_last() + g + nl_indent(
                            self.tabs(),
                        ));
                        lemma_line_keeps_shape(before.text().drop_last(), g, self.tabs());
                        assert(self.balanced());
                    }
                }
            }
        }
        proof {
            assert(self.text().subrange(self.text().len() - 1, self.text().len() as int)
                == nl_indent(0));
            assert(nl_indent(0) =~= seq!['\n']);
            assert(self.text().len() >= 1);
        }
        let ghost looped = *self;
        self.drop_last_char();
        self.string_container.append(";\n");
        proof {
            assert(self.text() =~= looped.text().drop_last() + ";\n"@);
        }
    }
}

} // verus!
