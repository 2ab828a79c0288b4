//! The signature extractor: turns one parsed, marker-annotated declaration
//! into normalized structural records. Declarations arrive as plain values
//! (token texts, parameter type texts, return path segments) together with
//! the marker facts of the external attribute-inspection collaborator.

use crate::text_formatter::{clone_strings, str_eq, strings_view};
use crate::types_structs::ItemInfo;
use vstd::prelude::*;

verus! {

/// One parameter of an operation: the implicit receiver, or a typed
/// parameter given by the text of its type.
pub enum ParamDecl {
    Receiver,
    Typed(String),
}

/// One segment of a path-shaped return type: its head identifier and the
/// full textual rendering of each angle-bracketed generic argument.
pub struct RetSegment {
    pub ident: String,
    pub args: Vec<String>,
}

/// One operation declaration: its bare name, the marker facts, its doc
/// lines, the token texts of its signature, its parameters, and the
/// segments of a path-shaped return type (empty for any other return).
pub struct MethodDecl {
    pub name: String,
    pub is_marked: bool,
    pub is_constructor: bool,
    pub docs: Vec<String>,
    pub sig_tokens: Vec<String>,
    pub params: Vec<ParamDecl>,
    pub ret_segments: Vec<RetSegment>,
}

/// One variant of an enumeration declaration.
pub struct VariantDecl {
    pub name: String,
    pub docs: Vec<String>,
}

/// One top-level declaration of a scanned source file, reduced to what the
/// extractor reads.
pub enum SourceItem {
    StructDecl { name: String, is_doc_marked: bool, docs: Vec<String> },
    FreeFn { name: String, is_marked: bool },
    ImplBlock { self_name: Option<String>, methods: Vec<MethodDecl> },
    EnumDecl { name: String, is_marked: bool, docs: Vec<String>, variants: Vec<VariantDecl> },
    TraitDecl { name: String, is_marked: bool, docs: Vec<String>, methods: Vec<MethodDecl> },
    Other,
}

/// Relies on `String::push`: appends the given character to the string.
pub assume_specification [ String::push ](s: &mut String, c: char)
    ensures
        final(s)@ == old(s)@.push(c),
;

/// The signature tokens after the leading qualifiers: everything past the
/// first `fn` token.
pub open spec fn after_fn(toks: Seq<Seq<char>>) -> Seq<Seq<char>>
    decreases toks.len(),
{
    if toks.len() == 0 {
        Seq::<Seq<char>>::empty()
    } else if toks[0] == "fn"@ {
        toks.skip(1)
    } else {
        after_fn(toks.skip(1))
    }
}

/// The normalized text of a token list: tokens are joined without spaces,
/// except that a lifetime quote is kept as a single unit with the token it
/// binds, followed by one space.
pub open spec fn sig_cat(toks: Seq<Seq<char>>) -> Seq<char>
    decreases toks.len(),
{
    if toks.len() == 0 {
        Seq::<char>::empty()
    } else if toks[0] == "'"@ {
        if toks.len() == 1 {
            toks[0]
        } else {
            toks[0] + toks[1] + " "@ + sig_cat(toks.skip(2))
        }
    } else {
        toks[0] + sig_cat(toks.skip(1))
    }
}

/// The normalized signature of an operation, from its token texts.
pub open spec fn spec_signature(toks: Seq<Seq<char>>) -> Seq<char> {
    sig_cat(after_fn(toks))
}

/// Normalizes a signature: strips everything up to and including the `fn`
/// keyword and renders the rest, keeping each lifetime quote glued to its
/// identifier and followed by one space.
pub fn normalize_signature(tokens: &Vec<String>) -> (r: String)
    ensures
        r@ == spec_signature(strings_view(tokens@)),
{
    let ghost tv = strings_view(tokens@);
    let n = tokens.len();
    let mut cur: usize = 0;
    proof {
        assert(tv.skip(0) =~= tv);
    }
    while cur < n
        invariant_except_break
            cur <= n,
            n == tokens@.len(),
            tv == strings_view(tokens@),
            after_fn(tv) == after_fn(tv.skip(cur as int)),
        ensures
            cur <= n,
            n == tokens@.len(),
            tv == strings_view(tokens@),
            after_fn(tv) =~= tv.skip(cur as int),
        decreases n - cur,
    {
        let hit = str_eq(tokens[cur].as_str(), "fn");
        proof {
            assert(tv.skip(cur as int)[0] == tv[cur as int]);
            assert(tv.skip(cur as int).skip(1) =~= tv.skip(cur as int + 1));
        }
        cur = cur + 1;
        if hit {
            proof {
                assert(after_fn(tv) == tv.skip(cur as int));
            }
            break ;
        }
    }
    proof {
        if cur == n {
            assert(tv.skip(n as int).len() == 0);
        }
    }
    let ghost rest = after_fn(tv);
    let mut out = String::new();
    proof {
        assert(rest =~= tv.skip(cur as int));
        assert(out@ + sig_cat(tv.skip(cur as int)) =~= sig_cat(rest));
    }
    while cur < n
        invariant
            cur <= n,
            n == tokens@.len(),
            tv == strings_view(tokens@),
            sig_cat(rest) == out@ + sig_cat(tv.skip(cur as int)),
        decreases n - cur,
    {
        let ghost remaining = tv.skip(cur as int);
        proof {
            assert(remaining[0] == tv[cur as int]);
        }
        let t: &str = tokens[cur].as_str();
        if str_eq(t, "'") {
            out.append(t);
            if cur + 1 < n {
                out.append(tokens[cur + 1].as_str());
                out.append(" ");
                proof {
                    assert(remaining[1] == tv[cur as int + 1]);
                    assert(remaining.skip(2) =~= tv.skip(cur as int + 2));
                    assert(sig_cat(remaining) == remaining[0] + remaining[1] + " "@ + sig_cat(
                        remaining.skip(2),
                    ));
                    assert(sig_cat(rest) =~= out@ + sig_cat(tv.skip(cur as int + 2)));
                }
                cur = cur + 2;
            } else {
                proof {
                    assert(remaining.len() == 1);
                    assert(sig_cat(remaining) == remaining[0]);
                    assert(tv.skip(n as int).len() == 0);
                    assert(sig_cat(tv.skip(n as int)) == Seq::<char>::empty());
                    assert(sig_cat(rest) =~= out@ + sig_cat(tv.skip(n as int)));
                }
                cur = cur + 1;
            }
        } else {
            out.append(t);
            proof {
                assert(remaining.skip(1) =~= tv.skip(cur as int + 1));
                assert(sig_cat(remaining) == remaining[0] + sig_cat(remaining.skip(1)));
                assert(sig_cat(rest) =~= out@ + sig_cat(tv.skip(cur as int + 1)));
            }
            cur = cur + 1;
        }
    }
    proof {
        assert(tv.skip(n as int).len() == 0);
        assert(sig_cat(tv.skip(n as int)) == Seq::<char>::empty());
        assert(out@ =~= sig_cat(rest));
    }
    out
}

/// The whitespace characters stripped from a simplified type name.
pub open spec fn is_ws(c: char) -> bool {
    c == ' ' || c == '\t' || c == '\n' || c == '\r'
}

/// Whether the character is stripped from a simplified type name.
fn is_ws_char(c: char) -> (r: bool)
    ensures
        r == is_ws(c),
{
    c == ' ' || c == '\t' || c == '\n' || c == '\r'
}

/// The text without its leading whitespace.
pub open spec fn trim_left(s: Seq<char>) -> Seq<char>
    decreases s.len(),
{
    if s.len() > 0 && is_ws(s[0]) {
        trim_left(s.skip(1))
    } else {
        s
    }
}

/// The text without its trailing whitespace.
pub open spec fn trim_right(s: Seq<char>) -> Seq<char>
    decreases s.len(),
{
    if s.len() > 0 && is_ws(s.last()) {
        trim_right(s.drop_last())
    } else {
        s
    }
}

/// The text without leading or trailing whitespace.
pub open spec fn spec_trim(s: Seq<char>) -> Seq<char> {
    trim_right(trim_left(s))
}

/// Strips leading and trailing whitespace.
pub fn trim_str(s: &str) -> (r: String)
    ensures
        r@ == spec_trim(s@),
{
    let n = s.unicode_len();
    let mut a: usize = 0;
    proof {
        assert(s@.skip(0) =~= s@);
    }
    while a < n
        invariant_except_break
            a <= n,
            n == s@.len(),
            trim_left(s@) == trim_left(s@.skip(a as int)),
        ensures
            a <= n,
            n == s@.len(),
            trim_left(s@) =~= s@.skip(a as int),
        decreases n - a,
    {
        proof {
            assert(s@.skip(a as int)[0] == s@[a as int]);
            assert(s@.skip(a as int).skip(1) =~= s@.skip(a as int + 1));
        }
        if !is_ws_char(s.get_char(a)) {
            proof {
                assert(trim_left(s@.skip(a as int)) == s@.skip(a as int));
            }
            break ;
        }
        a = a + 1;
    }
    proof {
        if a == n {
            assert(s@.skip(n as int).len() == 0);
        }
    }
    let ghost left = s@.skip(a as int);
    let mut b: usize = n - a;
    proof {
        assert(left.take(b as int) =~= left);
    }
    while b > 0
        invariant_except_break
            b <= n - a,
            a <= n,
            n == s@.len(),
            left == s@.skip(a as int),
            trim_right(left) == trim_right(left.take(b as int)),
        ensures
            b <= n - a,
            a <= n,
            n == s@.len(),
            left == s@.skip(a as int),
            trim_right(left) =~= left.take(b as int),
        decreases b,
    {
        proof {
            assert(left.take(b as int).last() == left[b as int - 1]);
            assert(left[b as int - 1] == s@[a as int + b - 1]);
            assert(left.take(b as int).drop_last() =~= left.take(b as int - 1));
        }
        if !is_ws_char(s.get_char(a + b - 1)) {
            proof {
                assert(trim_right(left.take(b as int)) == left.take(b as int));
            }
            break ;
        }
        b = b - 1;
    }
    proof {
        if b == 0 {
            assert(left.take(0).len() == 0);
        }
        assert(left.take(b as int) =~= s@.subrange(a as int, a as int + b));
        assert(spec_trim(s@) =~= s@.subrange(a as int, a as int + b));
    }
    s.substring_char(a, a + b).to_owned()
}

/// The text with every `" dyn "` piece removed, scanning left to right.
pub open spec fn spec_replace_dyn(s: Seq<char>) -> Seq<char>
    decreases s.len(),
{
    if s.len() < 5 {
        s
    } else if s.subrange(0, 5) == " dyn "@ {
        spec_replace_dyn(s.skip(5))
    } else {
        seq![s[0]] + spec_replace_dyn(s.skip(1))
    }
}

/// Removes every `" dyn "` piece of a type text.
pub fn replace_dyn(s: &str) -> (r: String)
    ensures
        r@ == spec_replace_dyn(s@),
{
    let n = s.unicode_len();
    let mut out = String::new();
    let mut i: usize = 0;
    proof {
        assert(s@.skip(0) =~= s@);
        assert(out@ + spec_replace_dyn(s@) =~= spec_replace_dyn(s@));
    }
    while i < n
        invariant
            i <= n,
            n == s@.len(),
            spec_replace_dyn(s@) == out@ + spec_replace_dyn(s@.skip(i as int)),
        decreases n - i,
    {
        let ghost remaining = s@.skip(i as int);
        let hit = if n - i >= 5 {
            s.get_char(i) == ' ' && s.get_char(i + 1) == 'd' && s.get_char(i + 2) == 'y'
                && s.get_char(i + 3) == 'n' && s.get_char(i + 4) == ' '
        } else {
            false
        };
        proof {
            reveal_strlit(" dyn ");
            assert(" dyn "@ =~= seq![' ', 'd', 'y', 'n', ' ']);
            if n - i >= 5 {
                assert(remaining.subrange(0, 5) =~= s@.subrange(i as int, i as int + 5));
                assert(remaining.subrange(0, 5)[0] == s@[i as int]);
                assert(remaining.subrange(0, 5)[1] == s@[i as int + 1]);
                assert(remaining.subrange(0, 5)[2] == s@[i as int + 2]);
                assert(remaining.subrange(0, 5)[3] == s@[i as int + 3]);
                assert(remaining.subrange(0, 5)[4] == s@[i as int + 4]);
                if hit {
                    assert(remaining.subrange(0, 5) =~= " dyn "@);
                } else {
                    if remaining.subrange(0, 5) == " dyn "@ {
                        assert(s@[i as int] == ' ' && s@[i as int + 1] == 'd' && s@[i as int + 2]
                            == 'y' && s@[i as int + 3] == 'n' && s@[i as int + 4] == ' ');
                        assert(false);
                    }
                }
            }
        }
        if hit {
            proof {
                assert(remaining.skip(5) =~= s@.skip(i as int + 5));
                assert(spec_replace_dyn(remaining) == spec_replace_dyn(remaining.skip(5)));
            }
            i = i + 5;
        } else {
            let c = s.get_char(i);
            let ghost before_out = out@;
            out.push(c);
            proof {
                assert(remaining[0] == s@[i as int]);
                assert(remaining.skip(1) =~= s@.skip(i as int + 1));
                if remaining.len() < 5 {
                    assert(spec_replace_dyn(remaining) == remaining);
                    assert(spec_replace_dyn(remaining.skip(1)) == remaining.skip(1));
                    assert(seq![remaining[0]] + remaining.skip(1) =~= remaining);
                }
                assert(spec_replace_dyn(remaining) == seq![remaining[0]] + spec_replace_dyn(
                    remaining.skip(1),
                ));
                assert(out@ =~= before_out + seq![remaining[0]]);
                assert(out@ + spec_replace_dyn(s@.skip(i as int + 1)) =~= before_out
                    + spec_replace_dyn(remaining));
            }
            i = i + 1;
        }
    }
    proof {
        assert(s@.skip(n as int).len() == 0);
        assert(spec_replace_dyn(s@.skip(n as int)) =~= Seq::<char>::empty());
        assert(out@ =~= spec_replace_dyn(s@));
    }
    out
}

/// The index of the last occurrence of the character, or a negative value.
pub open spec fn find_last_char(s: Seq<char>, c: char) -> int
    decreases s.len(),
{
    if s.len() == 0 {
        -1
    } else if s.last() == c {
        s.len() - 1
    } else {
        find_last_char(s.drop_last(), c)
    }
}

/// The index of the first occurrence of the character, or a negative value.
pub open spec fn find_first_char_from(s: Seq<char>, c: char, k: int) -> int
    decreases s.len() - k,
{
    if !(0 <= k < s.len()) {
        -1
    } else if s[k] == c {
        k
    } else {
        find_first_char_from(s, c, k + 1)
    }
}

/// A type name used as a generic argument is simplified to its innermost
/// head: the trimmed text between the last opening angle bracket and the
/// first closing one; a text without such a bracket pair is only trimmed.
pub open spec fn spec_collapse(s: Seq<char>) -> Seq<char> {
    let p = find_last_char(s, '<');
    let q = find_first_char_from(s, '>', 0);
    if p >= 0 && q >= p + 1 {
        spec_trim(s.subrange(p + 1, q))
    } else {
        spec_trim(s)
    }
}

/// The simplification applied to each parameter type text: `dyn` markers
/// dropped, then the generic wrapper collapsed to the contained name.
pub open spec fn spec_simplify_type(s: Seq<char>) -> Seq<char> {
    spec_collapse(spec_replace_dyn(s))
}

/// Collapses a generic type text to its innermost head identifier.
pub fn collapse_generic(s: &str) -> (r: String)
    ensures
        r@ == spec_collapse(s@),
{
    let n = s.unicode_len();
    let mut p: usize = n;
    let mut found_lt = false;
    proof {
        assert(s@.take(n as int) =~= s@);
    }
    while p > 0
        invariant_except_break
            p <= n,
            n == s@.len(),
            !found_lt,
            find_last_char(s@, '<') == find_last_char(s@.take(p as int), '<'),
        ensures
            p <= n,
            n == s@.len(),
            found_lt ==> 1 <= p && find_last_char(s@, '<') == p - 1,
            !found_lt ==> find_last_char(s@, '<') == -1,
        decreases p,
    {
        proof {
            assert(s@.take(p as int).last() == s@[p as int - 1]);
            assert(s@.take(p as int).drop_last() =~= s@.take(p as int - 1));
        }
        if s.get_char(p - 1) == '<' {
            found_lt = true;
            proof {
                assert(find_last_char(s@.take(p as int), '<') == p - 1);
            }
            break ;
        }
        p = p - 1;
    }
    proof {
        if !found_lt {
            assert(s@.take(0).len() == 0);
        }
    }
    let mut q: usize = 0;
    let mut found_gt = false;
    while q < n
        invariant_except_break
            q <= n,
            n == s@.len(),
            !found_gt,
            find_first_char_from(s@, '>', 0) == find_first_char_from(s@, '>', q as int),
        ensures
            q <= n,
            n == s@.len(),
            found_gt ==> q < n && find_first_char_from(s@, '>', 0) == q as int,
            !found_gt ==> find_first_char_from(s@, '>', 0) == -1,
        decreases n - q,
    {
        if s.get_char(q) == '>' {
            found_gt = true;
            proof {
                assert(find_first_char_from(s@, '>', q as int) == q as int);
            }
            break ;
        }
        proof {
            assert(find_first_char_from(s@, '>', q as int) == find_first_char_from(
                s@,
                '>',
                q as int + 1,
            ));
        }
        q = q + 1;
    }
    proof {
        if !found_gt {
            assert(find_first_char_from(s@, '>', n as int) == -1);
        }
    }
    if found_lt && found_gt && q >= p {
        proof {
            assert(find_last_char(s@, '<') == p - 1);
            assert(find_first_char_from(s@, '>', 0) == q as int);
            assert(q as int >= (p - 1) + 1);
        }
        let inner = s.substring_char(p, q);
        trim_str(inner)
    } else {
        proof {
            let pp = find_last_char(s@, '<');
            let qq = find_first_char_from(s@, '>', 0);
            assert(!(pp >= 0 && qq >= pp + 1));
        }
        trim_str(s)
    }
}

/// Simplifies one parameter type text.
pub fn simplify_type(s: &str) -> (r: String)
    ensures
        r@ == spec_simplify_type(s@),
{
    let cleaned = replace_dyn(s);
    collapse_generic(cleaned.as_str())
}

/// The simplified head names of the typed parameters, the receiver
/// dropped.
pub open spec fn spec_param_types(ps: Seq<ParamDecl>) -> Seq<Seq<char>>
    decreases ps.len(),
{
    if ps.len() == 0 {
        Seq::<Seq<char>>::empty()
    } else {
        spec_param_types(ps.drop_last()) + (match ps.last() {
            ParamDecl::Receiver => Seq::<Seq<char>>::empty(),
            ParamDecl::Typed(t) => seq![spec_simplify_type(t@)],
        })
    }
}

/// Computes the parameter type names of an operation: the receiver is
/// dropped and each remaining type text is simplified.
pub fn types_in_method(params: &Vec<ParamDecl>) -> (r: Vec<String>)
    ensures
        strings_view(r@) == spec_param_types(params@),
{
    let mut r: Vec<String> = Vec::new();
    let mut i: usize = 0;
    proof {
        assert(strings_view(r@) =~= spec_param_types(params@.take(0)));
    }
    while i < params.len()
        invariant
            i <= params@.len(),
            strings_view(r@) == spec_param_types(params@.take(i as int)),
        decreases params@.len() - i,
    {
        let ghost so_far = strings_view(r@);
        proof {
            assert(params@.take(i + 1).drop_last() =~= params@.take(i as int));
            assert(params@.take(i + 1).last() == params@[i as int]);
        }
        match &params[i] {
            ParamDecl::Receiver => {
                proof {
                    assert(so_far + Seq::<Seq<char>>::empty() =~= so_far);
                    assert(strings_view(r@) =~= spec_param_types(params@.take(i + 1)));
                }
            }
            ParamDecl::Typed(t) => {
                let simplified = simplify_type(t.as_str());
                r.push(simplified);
                proof {
                    assert(strings_view(r@) =~= so_far.push(
                        spec_simplify_type(params@[i as int]->Typed_0@),
                    ));
                    assert(so_far + seq![spec_simplify_type(params@[i as int]->Typed_0@)]
                        =~= so_far.push(spec_simplify_type(params@[i as int]->Typed_0@)));
                    assert(strings_view(r@) =~= spec_param_types(params@.take(i + 1)));
                }
            }
        }
        i = i + 1;
    }
    proof {
        assert(params@.take(params@.len() as int) =~= params@);
    }
    r
}

/// The names contributed by one return path segment: its head identifier,
/// then each generic argument's full text, unsimplified.
pub open spec fn spec_segment_types(seg: RetSegment) -> Seq<Seq<char>> {
    seq![seg.ident@] + strings_view(seg.args@)
}

/// The names contributed by a path-shaped return type; a non-path return
/// has no segments and contributes nothing.
pub open spec fn spec_return_types(segs: Seq<RetSegment>) -> Seq<Seq<char>>
    decreases segs.len(),
{
    if segs.len() == 0 {
        Seq::<Seq<char>>::empty()
    } else {
        spec_return_types(segs.drop_last()) + spec_segment_types(segs.last())
    }
}

/// Computes the return type names of an operation from its return path
/// segments.
pub fn return_types(segments: &Vec<RetSegment>) -> (r: Vec<String>)
    ensures
        strings_view(r@) == spec_return_types(segments@),
{
    let mut r: Vec<String> = Vec::new();
    let mut i: usize = 0;
    proof {
        assert(strings_view(r@) =~= spec_return_types(segments@.take(0)));
    }
    while i < segments.len()
        invariant
            i <= segments@.len(),
            strings_view(r@) == spec_return_types(segments@.take(i as int)),
        decreases segments@.len() - i,
    {
        let ghost so_far = strings_view(r@);
        let ghost segv = segments@[i as int];
        proof {
            assert(segments@.take(i + 1).drop_last() =~= segments@.take(i as int));
            assert(segments@.take(i + 1).last() == segv);
        }
        let seg = &segments[i];
        r.push(seg.ident.clone());
        proof {
            assert(strings_view(r@) =~= so_far + seq![segv.ident@]);
        }
        let ghost base = strings_view(r@);
        let ghost argv = strings_view(segv.args@);
        let mut j: usize = 0;
        proof {
            assert(base + argv.take(0) =~= base);
        }
        while j < seg.args.len()
            invariant
                j <= seg.args@.len(),
                seg == &segments@[i as int],
                segv == segments@[i as int],
                argv == strings_view(segv.args@),
                argv.len() == seg.args@.len(),
                base == so_far + seq![segv.ident@],
                strings_view(r@) == base + argv.take(j as int),
            decreases seg.args@.len() - j,
        {
            let ghost before = strings_view(r@);
            r.push(seg.args[j].clone());
            proof {
                assert(strings_view(r@) =~= before.push(argv[j as int]));
                assert(base + argv.take(j + 1) =~= (base + argv.take(j as int)).push(
                    argv[j as int],
                ));
            }
            j = j + 1;
        }
        proof {
            assert(argv.take(seg.args@.len() as int) =~= argv);
            assert(strings_view(r@) =~= so_far + (seq![segv.ident@] + argv));
            assert(strings_view(r@) =~= spec_return_types(segments@.take(i + 1)));
        }
        i = i + 1;
    }
    proof {
        assert(segments@.take(segments@.len() as int) =~= segments@);
    }
    r
}

/// One operation record is the extraction of one operation declaration,
/// with the given constructor flag.
pub open spec fn extracted_item_ok(it: ItemInfo, m: MethodDecl, ctor: bool) -> bool {
    &&& strings_view(it.docs@) == strings_view(m.docs@)
    &&& it.signature@ == spec_signature(strings_view(m.sig_tokens@))
    &&& it.is_constructor == ctor
    &&& it.method_info matches Option::Some(mi) && mi.name@ == m.name@ && strings_view(
        mi.types_in_method@,
    ) == spec_param_types(m.params@) && strings_view(mi.return_types@) == spec_return_types(
        m.ret_segments@,
    )
}

/// Builds the operation record of one operation declaration: the normalized
/// signature, the doc lines, the bare name, the given constructor flag, and
/// the referenced type names. Contract-like operations never count as
/// constructors, so their callers pass `false`.
pub fn method_item(m: &MethodDecl, is_constructor: bool) -> (r: ItemInfo)
    ensures
        extracted_item_ok(r, *m, is_constructor),
{
    ItemInfo::new_method(
        normalize_signature(&m.sig_tokens),
        clone_strings(&m.docs),
        m.name.clone(),
        is_constructor,
        types_in_method(&m.params),
        return_types(&m.ret_segments),
    )
}

} // verus!
