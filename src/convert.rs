use vstd::prelude::*;

use crate::decimal::{decimal, decimal_chars, lemma_decimal_canonical};
use crate::document::{
    lemma_render_split, newline_free, head_chars, lemma_record_text_facts, lemma_first_line, valid_doc, valid_id, is_id_char, record_head, record_mid, lemma_render_push, mid_chars, record_text, render, tail_chars, unique_ids,
    Document, Record, RecordModel, SourceFormat,
};
use crate::parser::{bad_line_at, can_begin_record, body_of, is_rendering, lemma_line_layout, parse, SyntaxError};
use crate::text::{is_space, trim_end};
use crate::text::{append_chars, chars_of, string_of};

verus! {

/// A record whose identifier an earlier record already uses.
#[derive(Debug)]
pub struct SemanticError {
    /// The 1-based line of the repeated record.
    pub line: usize,
    /// The repeated identifier.
    pub id: String,
}

/// Why a conversion failed, by the stage that failed.
#[derive(Debug)]
pub enum ConversionError {
    Syntax(SyntaxError),
    Semantic(SemanticError),
}

/// The document that `text` writes in format `f`, if it writes one.
pub open spec fn parsed(f: SourceFormat, text: Seq<char>) -> Option<Seq<RecordModel>> {
    if exists|d: Seq<RecordModel>| is_rendering(f, d, text) {
        Some(choose|d: Seq<RecordModel>| is_rendering(f, d, text))
    } else {
        None
    }
}

/// Record `j` is the first that repeats an identifier of an earlier record.
pub open spec fn is_first_repeat(d: Seq<RecordModel>, j: int) -> bool {
    &&& 0 <= j < d.len()
    &&& unique_ids(d.take(j))
    &&& exists|i: int| 0 <= i < j && d[i].0 == d[j].0
}

/// The text of a syntax error.
pub open spec fn syntax_message(e: SyntaxError) -> Seq<char> {
    "syntax error at line "@ + decimal(e.line as nat) + ": not a record"@
}

/// The text of a semantic error.
pub open spec fn semantic_message(line: usize, id: Seq<char>) -> Seq<char> {
    "duplicate record id "@ + id + " at line "@ + decimal(line as nat)
}

impl ConversionError {
    pub open spec fn message_spec(&self) -> Seq<char> {
        match self {
            ConversionError::Syntax(e) => syntax_message(*e),
            ConversionError::Semantic(e) => semantic_message(e.line, e.id@),
        }
    }

    /// A short description of the failure, for the user.
    pub fn message(&self) -> (r: String)
        ensures
            r@ == self.message_spec(),
    {
        let mut out: Vec<char> = Vec::new();
        match self {
            ConversionError::Syntax(e) => {
                append_chars(&mut out, &chars_of("syntax error at line "));
                append_chars(&mut out, &decimal_chars(e.line as u64));
                append_chars(&mut out, &chars_of(": not a record"));
            },
            ConversionError::Semantic(e) => {
                append_chars(&mut out, &chars_of("duplicate record id "));
                append_chars(&mut out, &chars_of(e.id.as_str()));
                append_chars(&mut out, &chars_of(" at line "));
                append_chars(&mut out, &decimal_chars(e.line as u64));
            },
        }
        string_of(&out)
    }
}

/// Checks that no two records share an identifier; otherwise names the first
/// record that repeats one.
pub fn validate(doc: &Document) -> (r: Result<(), SemanticError>)
    ensures
        r is Ok <==> unique_ids(doc@),
        r is Err ==> is_first_repeat(doc@, r->Err_0.line - 1) && r->Err_0.id@ == doc@[r->Err_0.line
            - 1].0,
{
    let n = doc.records.len();
    let mut j: usize = 0;
    while j < n
        invariant
            n == doc@.len(),
            j <= n,
            unique_ids(doc@.take(j as int)),
        decreases n - j,
    {
        let mut i: usize = 0;
        while i < j
            invariant
                n == doc@.len(),
                i <= j < n,
                unique_ids(doc@.take(j as int)),
                forall|k: int| 0 <= k < i ==> doc@[k].0 != doc@[j as int].0,
            decreases j - i,
        {
            if doc.records[i].id == doc.records[j].id {
                assert(doc@[i as int].0 == doc@[j as int].0);
                return Err(SemanticError { line: j + 1, id: doc.records[j].id.clone() });
            }
            i = i + 1;
        }
        assert(unique_ids(doc@.take(j + 1))) by {
            let t = doc@.take(j + 1);
            assert forall|a: int, b: int|
                0 <= a < b < j + 1 implies #[trigger] t[a].0 != #[trigger] t[b].0 by {
                if b < j {
                    assert(doc@.take(j as int)[a] == doc@[a]);
                    assert(doc@.take(j as int)[b] == doc@[b]);
                }
            }
        }
        j = j + 1;
    }
    assert(doc@.take(n as int) =~= doc@);
    Ok(())
}

/// Appends the line of record `r` in format `f`, with its newline.
fn write_record(f: SourceFormat, r: &Record, out: &mut Vec<char>)
    ensures
        final(out)@ == old(out)@ + record_text(f, r@) + seq!['\n'],
{
    append_chars(out, &head_chars(f));
    append_chars(out, &chars_of(r.id.as_str()));
    append_chars(out, &mid_chars(f));
    append_chars(out, &decimal_chars(r.value));
    append_chars(out, &tail_chars(f));
    out.push('\n');
}

/// Writes a document in the target format: one JSON object per record, each
/// on its own line.
pub fn emit(doc: &Document) -> (r: String)
    ensures
        r@ == render(SourceFormat::Json, doc@),
{
    let mut out: Vec<char> = Vec::new();
    let mut i: usize = 0;
    assert(doc@.take(0) =~= Seq::<RecordModel>::empty());
    while i < doc.records.len()
        invariant
            i <= doc@.len(),
            out@ == render(SourceFormat::Json, doc@.take(i as int)),
        decreases doc@.len() - i,
    {
        write_record(SourceFormat::Json, &doc.records[i], &mut out);
        proof {
            lemma_render_push(SourceFormat::Json, doc@.take(i as int), doc@[i as int]);
            assert(doc@.take(i + 1) =~= doc@.take(i as int).push(doc@[i as int]));
        }
        i = i + 1;
    }
    assert(doc@.take(i as int) =~= doc@);
    string_of(&out)
}

/// `e` is the error that converting `text` in format `f` owes: the first line
/// that is not a record when the text writes no document (with a column before
/// which the line can still begin a record), else the first record that
/// repeats an identifier.
pub open spec fn explains(f: SourceFormat, text: Seq<char>, e: ConversionError) -> bool {
    match parsed(f, text) {
        None => {
            &&& e is Syntax
            &&& bad_line_at(f, body_of(text), e->Syntax_0.line as nat, e->Syntax_0.offset as nat)
            &&& e->Syntax_0.column >= 1
            &&& e->Syntax_0.offset + e->Syntax_0.column - 1 <= body_of(text).len()
            &&& can_begin_record(
                f,
                body_of(text).subrange(
                    e->Syntax_0.offset as int,
                    e->Syntax_0.offset + e->Syntax_0.column - 1,
                ),
            )
        },
        Some(d) => {
            &&& !unique_ids(d)
            &&& e is Semantic
            &&& is_first_repeat(d, e->Semantic_0.line - 1)
            &&& e->Semantic_0.id@ == d[e->Semantic_0.line - 1].0
        },
    }
}

/// Whether `text` in format `f` converts: it writes a document whose
/// identifiers are unique.
pub open spec fn converts(f: SourceFormat, text: Seq<char>) -> bool {
    parsed(f, text) is Some && unique_ids(parsed(f, text)->Some_0)
}

/// Converts `content`, written in format `f`, to the target format: parse,
/// then check identifiers, then emit. The first stage that fails decides the
/// error.
pub fn convert_with_format(f: SourceFormat, content: &str) -> (r: Result<String, ConversionError>)
    ensures
        r is Ok <==> converts(f, content@),
        r is Ok ==> r->Ok_0@ == render(SourceFormat::Json, parsed(f, content@)->Some_0),
        r is Err ==> explains(f, content@, r->Err_0),
{
    let parsed_doc = parse(f, content);
    proof {
        if exists|d: Seq<RecordModel>| is_rendering(f, d, content@) {
            let d = choose|d: Seq<RecordModel>| is_rendering(f, d, content@);
            assert(is_rendering(f, d, content@));
        }
    }
    match parsed_doc {
        Err(e) => Err(ConversionError::Syntax(e)),
        Ok(doc) => {
            assert(is_rendering(f, doc@, content@));
            match validate(&doc) {
                Err(e) => Err(ConversionError::Semantic(e)),
                Ok(()) => Ok(emit(&doc)),
            }
        },
    }
}

/// `s` without its leading whitespace.
pub open spec fn skip_space(s: Seq<char>) -> Seq<char>
    decreases s.len(),
{
    if s.len() > 0 && is_space(s[0]) {
        skip_space(s.skip(1))
    } else {
        s
    }
}

/// The format that content declares by itself: JSON lines when its first
/// character that is not whitespace is `{`, the native format otherwise.
pub open spec fn sniffed(text: Seq<char>) -> SourceFormat {
    let t = skip_space(text);
    if t.len() > 0 && t[0] == '{' {
        SourceFormat::Json
    } else {
        SourceFormat::Native
    }
}

/// Tells the format of `content` from its first character that is not whitespace.
pub fn sniff_format(content: &str) -> (f: SourceFormat)
    ensures
        f == sniffed(content@),
{
    let chars = chars_of(content);
    let mut i: usize = 0;
    assert(chars@.skip(0) =~= chars@);
    while i < chars.len() && (chars[i] == ' ' || chars[i] == '\t' || chars[i] == '\r' || chars[i]
        == '\n')
        invariant
            i <= chars@.len(),
            skip_space(chars@.skip(i as int)) == skip_space(chars@),
        decreases chars@.len() - i,
    {
        assert(chars@.skip(i as int).skip(1) =~= chars@.skip(i + 1));
        i = i + 1;
    }
    if i < chars.len() && chars[i] == '{' {
        SourceFormat::Json
    } else {
        SourceFormat::Native
    }
}

/// Converts content whose format is told from the content itself: parse in
/// the sniffed format, check identifiers, emit.
pub fn convert(content: &str) -> (r: Result<String, ConversionError>)
    ensures
        r is Ok <==> converts(sniffed(content@), content@),
        r is Ok ==> r->Ok_0@ == render(
            SourceFormat::Json,
            parsed(sniffed(content@), content@)->Some_0,
        ),
        r is Err ==> explains(sniffed(content@), content@, r->Err_0),
{
    let f = sniff_format(content);
    convert_with_format(f, content)
}

/// The message that a failed conversion hands to the user.
pub fn failure_message(e: &ConversionError) -> (r: String)
    ensures
        r@ == "conversion failed: "@ + e.message_spec(),
{
    let mut out = chars_of("conversion failed: ");
    append_chars(&mut out, &chars_of(e.message().as_str()));
    string_of(&out)
}

/// Converts in-memory content, its format told from the content; a failure
/// becomes a message for the user.
pub fn convert_ohh_content(content: &str) -> (r: Result<String, String>)
    ensures
        r is Ok <==> converts(sniffed(content@), content@),
        r is Ok ==> r->Ok_0@ == render(
            SourceFormat::Json,
            parsed(sniffed(content@), content@)->Some_0,
        ),
        r is Err ==> exists|e: ConversionError|
            explains(sniffed(content@), content@, e) && r->Err_0@ == "conversion failed: "@
                + e.message_spec(),
{
    match convert(content) {
        Ok(s) => Ok(s),
        Err(e) => Err(failure_message(&e)),
    }
}

/// Two valid records written alike are the same record.
pub proof fn lemma_record_text_injective(f: SourceFormat, a: RecordModel, b: RecordModel)
    requires
        valid_id(a.0),
        valid_id(b.0),
        record_text(f, a) == record_text(f, b),
    ensures
        a == b,
{
    let t = record_text(f, a);
    let hl = record_head(f).len() as int;
    let j = hl + a.0.len();
    assert forall|i: int| hl <= i < j implies is_id_char(#[trigger] t[i]) by {
        assert(t[i] == a.0[i - hl]);
    }
    assert(t[j] == record_mid(f)[0]);
    assert(t.subrange(0, t.len() as int) =~= t);
    lemma_line_layout(f, t, 0, t.len() as int, j, a);
    lemma_line_layout(f, t, 0, t.len() as int, j, b);
    lemma_decimal_canonical(a.1 as nat);
    lemma_decimal_canonical(b.1 as nat);
}

/// Two valid documents written alike are the same document.
pub proof fn lemma_render_injective(f: SourceFormat, a: Seq<RecordModel>, b: Seq<RecordModel>)
    requires
        forall|i: int| 0 <= i < a.len() ==> valid_id(#[trigger] a[i].0),
        forall|i: int| 0 <= i < b.len() ==> valid_id(#[trigger] b[i].0),
        render(f, a) == render(f, b),
    ensures
        a == b,
    decreases a.len(),
{
    if a.len() == 0 || b.len() == 0 {
        if a.len() > 0 {
            lemma_record_text_facts(f, a[0]);
            assert(render(f, a).len() > 0);
        }
        if b.len() > 0 {
            lemma_record_text_facts(f, b[0]);
            assert(render(f, b).len() > 0);
        }
        assert(a =~= b);
    } else {
        lemma_record_text_facts(f, a[0]);
        lemma_record_text_facts(f, b[0]);
        lemma_first_line(
            record_text(f, a[0]),
            render(f, a.skip(1)),
            record_text(f, b[0]),
            render(f, b.skip(1)),
        );
        lemma_record_text_injective(f, a[0], b[0]);
        assert forall|i: int| 0 <= i < a.skip(1).len() implies valid_id(#[trigger] a.skip(1)[i].0) by {
            assert(a.skip(1)[i] == a[i + 1]);
        }
        assert forall|i: int| 0 <= i < b.skip(1).len() implies valid_id(#[trigger] b.skip(1)[i].0) by {
            assert(b.skip(1)[i] == b[i + 1]);
        }
        lemma_render_injective(f, a.skip(1), b.skip(1));
        assert(a =~= seq![a[0]] + a.skip(1));
        assert(b =~= seq![b[0]] + b.skip(1));
    }
}

/// Round trip: parsing what a valid document renders to, in the same format,
/// gives back that document.
pub proof fn lemma_round_trip(f: SourceFormat, d: Seq<RecordModel>)
    requires
        valid_doc(d),
    ensures
        parsed(f, render(f, d)) == Some(d),
{
    let n = d.len() - 1;
    lemma_render_push(f, d.drop_last(), d[n]);
    assert(d.drop_last().push(d[n]) =~= d);
    let x = render(f, d.drop_last()) + record_text(f, d[n]);
    assert(render(f, d) =~= x + seq!['\n']);
    lemma_record_text_facts(f, d[n]);
    assert(x[x.len() - 1] == record_text(f, d[n])[record_text(f, d[n]).len() - 1]);
    assert((x + seq!['\n']).drop_last() =~= x);
    assert(trim_end(render(f, d)) == trim_end(x));
    assert(!is_space(x.last()));
    assert(trim_end(x) == x);
    assert(is_rendering(f, d, render(f, d)));
    let c = choose|c: Seq<RecordModel>| is_rendering(f, c, render(f, d));
    lemma_render_injective(f, c, d);
}

/// Round trip through the content entry point: what `emit` writes for a
/// valid document with unique identifiers is sniffed as JSON lines, converts,
/// and converts to itself.
pub proof fn lemma_emitted_content_converts(d: Seq<RecordModel>)
    requires
        valid_doc(d),
        unique_ids(d),
    ensures
        sniffed(render(SourceFormat::Json, d)) == SourceFormat::Json,
        parsed(sniffed(render(SourceFormat::Json, d)), render(SourceFormat::Json, d)) == Some(d),
        converts(sniffed(render(SourceFormat::Json, d)), render(SourceFormat::Json, d)),
{
    let s = render(SourceFormat::Json, d);
    lemma_record_text_facts(SourceFormat::Json, d[0]);
    assert(s[0] == record_text(SourceFormat::Json, d[0])[0]);
    assert(record_text(SourceFormat::Json, d[0])[0] == '{');
    assert(skip_space(s) == s);
    lemma_round_trip(SourceFormat::Json, d);
}

/// A block that is not a record is never dropped: records followed by a line
/// that writes no record form no document, so conversion fails at the parser.
pub proof fn lemma_unknown_block_rejected(f: SourceFormat, d: Seq<RecordModel>, b: Seq<char>)
    requires
        forall|i: int| 0 <= i < d.len() ==> valid_id(#[trigger] d[i].0),
        b.len() > 0,
        newline_free(b),
        !is_space(b.last()),
        forall|m: RecordModel| valid_id(m.0) ==> b != #[trigger] record_text(f, m),
    ensures
        parsed(f, render(f, d) + b) is None,
        !converts(f, render(f, d) + b),
{
    let text = render(f, d) + b;
    let body = text + seq!['\n'];
    assert(trim_end(text) == text);
    assert(body_of(text) == body);
    assert forall|e: Seq<RecordModel>| !is_rendering(f, e, text) by {
        if is_rendering(f, e, text) {
            assert(render(f, d).is_prefix_of(body)) by {
                assert(render(f, d) =~= body.subrange(0, render(f, d).len() as int));
            }
            assert(render(f, e).is_prefix_of(body)) by {
                assert(render(f, e) =~= body.subrange(0, body.len() as int));
            }
            let k = d.len() as int;
            if e.len() < d.len() {
                lemma_render_prefixes(f, e, d, body);
                lemma_render_split(f, d, e.len() as int);
                assert(false);
            } else {
                lemma_render_prefixes(f, d, e, body);
                lemma_render_split(f, e, k);
                let rest = e.skip(k);
                assert(e.take(k) == d);
                let n = render(f, d).len() as int;
                assert(render(f, rest) =~= body.skip(n));
                assert(b + seq!['\n'] =~= body.skip(n));
                if rest.len() == 0 {
                    assert(false);
                }
                assert(rest[0] == e[k]);
                lemma_record_text_facts(f, e[k]);
                assert(b + seq!['\n'] =~= b + seq!['\n'] + Seq::<char>::empty());
                lemma_first_line(b, Seq::empty(), record_text(f, e[k]), render(f, rest.skip(1)));
                assert(false);
            }
        }
    }
}

/// Empty input writes no document, so converting it fails at the parser.
pub proof fn lemma_empty_input_rejected(f: SourceFormat)
    ensures
        parsed(f, Seq::empty()) is None,
        !converts(f, Seq::empty()),
{
    assert(body_of(Seq::empty()) =~= seq!['\n']);
    assert forall|d: Seq<RecordModel>| !is_rendering(f, d, Seq::empty()) by {
        if is_rendering(f, d, Seq::empty()) {
            lemma_record_text_facts(f, d[0]);
            assert(render(f, d)[0] == record_text(f, d[0])[0]);
        }
    }
}

/// A rendering that begins `body` begins it with its first record's line.
proof fn lemma_render_head(f: SourceFormat, a: Seq<RecordModel>, body: Seq<char>)
    requires
        a.len() > 0,
        forall|i: int| 0 <= i < a.len() ==> valid_id(#[trigger] a[i].0),
        render(f, a).is_prefix_of(body),
    ensures
        body == record_text(f, a[0]) + seq!['\n'] + body.skip(record_text(f, a[0]).len() as int + 1),
        newline_free(record_text(f, a[0])),
        render(f, a.skip(1)).is_prefix_of(body.skip(record_text(f, a[0]).len() as int + 1)),
        forall|i: int| 0 <= i < a.skip(1).len() ==> valid_id(#[trigger] a.skip(1)[i].0),
{
    let ta = record_text(f, a[0]);
    let la = ta.len() as int;
    lemma_record_text_facts(f, a[0]);
    let x = body.skip(la + 1);
    assert(body.take(la + 1) =~= render(f, a).take(la + 1));
    assert(body =~= body.take(la + 1) + x);
    assert(render(f, a.skip(1)) =~= render(f, a).skip(la + 1));
    assert(render(f, a.skip(1)) =~= x.subrange(0, render(f, a.skip(1)).len() as int));
    assert forall|i: int| 0 <= i < a.skip(1).len() implies valid_id(#[trigger] a.skip(1)[i].0) by {
        assert(a.skip(1)[i] == a[i + 1]);
    }
}

/// Two sequences of valid records whose renderings both begin `body` agree
/// as far as the shorter goes.
pub proof fn lemma_render_prefixes(
    f: SourceFormat,
    a: Seq<RecordModel>,
    b: Seq<RecordModel>,
    body: Seq<char>,
)
    requires
        forall|i: int| 0 <= i < a.len() ==> valid_id(#[trigger] a[i].0),
        forall|i: int| 0 <= i < b.len() ==> valid_id(#[trigger] b[i].0),
        render(f, a).is_prefix_of(body),
        render(f, b).is_prefix_of(body),
        a.len() <= b.len(),
    ensures
        a == b.take(a.len() as int),
    decreases a.len(),
{
    if a.len() == 0 {
        assert(a =~= b.take(0));
    } else {
        lemma_render_head(f, a, body);
        lemma_render_head(f, b, body);
        let ta = record_text(f, a[0]);
        let tb = record_text(f, b[0]);
        let x = body.skip(ta.len() as int + 1);
        let y = body.skip(tb.len() as int + 1);
        lemma_first_line(ta, x, tb, y);
        lemma_record_text_injective(f, a[0], b[0]);
        lemma_render_prefixes(f, a.skip(1), b.skip(1), x);
        assert(a =~= seq![a[0]] + a.skip(1));
        assert(b.take(a.len() as int) =~= seq![b[0]] + b.skip(1).take(a.skip(1).len() as int));
    }
}

/// A text has at most one first line that is not a record.
pub proof fn lemma_bad_line_unique(f: SourceFormat, body: Seq<char>, l1: nat, o1: nat, l2: nat, o2: nat)
    requires
        bad_line_at(f, body, l1, o1),
        bad_line_at(f, body, l2, o2),
    ensures
        l1 == l2,
        o1 == o2,
{
    if l2 < l1 {
        lemma_bad_line_ordered(f, body, l2, o2, l1, o1);
    } else {
        lemma_bad_line_ordered(f, body, l1, o1, l2, o2);
    }
}

proof fn lemma_bad_line_ordered(f: SourceFormat, body: Seq<char>, l1: nat, o1: nat, l2: nat, o2: nat)
    requires
        bad_line_at(f, body, l1, o1),
        bad_line_at(f, body, l2, o2),
        l1 <= l2,
    ensures
        l1 == l2,
        o1 == o2,
{
    {
        let r1 = choose|recs: Seq<RecordModel>|
            {
                &&& recs.len() + 1 == l1
                &&& forall|i: int| 0 <= i < recs.len() ==> valid_id(#[trigger] recs[i].0)
                &&& o1 <= body.len()
                &&& body.take(o1 as int) == render(f, recs)
                &&& forall|m: RecordModel|
                    valid_id(m.0) ==> !(#[trigger] record_text(f, m) + seq!['\n']).is_prefix_of(
                        body.skip(o1 as int),
                    )
            };
        let r2 = choose|recs: Seq<RecordModel>|
            {
                &&& recs.len() + 1 == l2
                &&& forall|i: int| 0 <= i < recs.len() ==> valid_id(#[trigger] recs[i].0)
                &&& o2 <= body.len()
                &&& body.take(o2 as int) == render(f, recs)
                &&& forall|m: RecordModel|
                    valid_id(m.0) ==> !(#[trigger] record_text(f, m) + seq!['\n']).is_prefix_of(
                        body.skip(o2 as int),
                    )
            };
        assert(render(f, r1).is_prefix_of(body));
        assert(render(f, r2).is_prefix_of(body));
        lemma_render_prefixes(f, r1, r2, body);
        let k = r1.len() as int;
        if k < r2.len() {
            lemma_render_split(f, r2, k);
            let rest = r2.skip(k);
            assert(rest[0] == r2[k]);
            let p = record_text(f, r2[k]) + seq!['\n'];
            assert(render(f, rest) =~= p + render(f, rest.skip(1)));
            assert(body.take(o2 as int) =~= render(f, r1) + render(f, rest));
            assert(p.is_prefix_of(body.skip(o1 as int))) by {
                assert forall|i: int| 0 <= i < p.len() implies p[i] == body.skip(o1 as int)[i] by {
                    assert(body.take(o2 as int)[o1 + i] == body[o1 + i]);
                }
                assert(p =~= body.skip(o1 as int).subrange(0, p.len() as int));
            }
            assert(false);
        } else {
            assert(r1 =~= r2);
        }
    }
}

/// Conversion fails in one way only: two errors that both explain the failure
/// of one input are the same error, with the same message.
pub proof fn lemma_failure_determined(
    f: SourceFormat,
    text: Seq<char>,
    e1: ConversionError,
    e2: ConversionError,
)
    requires
        explains(f, text, e1),
        explains(f, text, e2),
    ensures
        e1 is Syntax <==> e2 is Syntax,
        e1 is Syntax ==> e1->Syntax_0.line == e2->Syntax_0.line && e1->Syntax_0.offset
            == e2->Syntax_0.offset,
        e1 is Semantic ==> e1->Semantic_0.line == e2->Semantic_0.line && e1->Semantic_0.id@
            == e2->Semantic_0.id@,
        e1.message_spec() == e2.message_spec(),
{
    match parsed(f, text) {
        None => {
            lemma_bad_line_unique(
                f,
                body_of(text),
                e1->Syntax_0.line as nat,
                e1->Syntax_0.offset as nat,
                e2->Syntax_0.line as nat,
                e2->Syntax_0.offset as nat,
            );
        },
        Some(d) => {
            let j1 = e1->Semantic_0.line - 1;
            let j2 = e2->Semantic_0.line - 1;
            if j1 < j2 {
                let i = choose|i: int| 0 <= i < j1 && d[i].0 == d[j1].0;
                let t = d.take(j2);
                assert(t[i] == d[i] && t[j1] == d[j1]);
            } else if j2 < j1 {
                let i = choose|i: int| 0 <= i < j2 && d[i].0 == d[j2].0;
                let t = d.take(j1);
                assert(t[i] == d[i] && t[j2] == d[j2]);
            }
        },
    }
}

/// Greets `name`.
pub fn greet(name: &str) -> (r: String)
    ensures
        r@ == "Hello, "@ + name@ + "! You've been greeted from Rust!"@,
{
    let mut out = chars_of("Hello, ");
    append_chars(&mut out, &chars_of(name));
    append_chars(&mut out, &chars_of("! You've been greeted from Rust!"));
    string_of(&out)
}

} // verus!
