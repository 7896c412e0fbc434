use vstd::prelude::*;

use crate::decimal::{decimal, is_digit, lemma_decimal_canonical};

verus! {

/// The encoding that a source document declares, from its file extension.
/// All three carry one grammar of records; `Json` writes each record as a
/// JSON object on its own line.
#[derive(Clone, Copy, Debug, PartialEq, Eq, Structural)]
pub enum SourceFormat {
    Native,
    Plain,
    Json,
}

/// One record of a document: its identifier and its value.
#[derive(Debug)]
pub struct Record {
    pub id: String,
    pub value: u64,
}

/// A record as a mathematical value: (identifier, value).
pub type RecordModel = (Seq<char>, u64);

impl View for Record {
    type V = RecordModel;

    open spec fn view(&self) -> RecordModel {
        (self.id@, self.value)
    }
}

/// The intermediate document: records in the order in which they were written.
#[derive(Debug)]
pub struct Document {
    pub records: Vec<Record>,
}

impl View for Document {
    type V = Seq<RecordModel>;

    open spec fn view(&self) -> Seq<RecordModel> {
        self.records@.map_values(|r: Record| r@)
    }
}

pub open spec fn is_id_char(c: char) -> bool {
    is_digit(c) || ('a' <= c && c <= 'z') || ('A' <= c && c <= 'Z') || c == '_' || c == '-'
}

/// An identifier: one or more letters, digits, `_` or `-`.
pub open spec fn valid_id(id: Seq<char>) -> bool {
    id.len() > 0 && forall|i: int| 0 <= i < id.len() ==> is_id_char(#[trigger] id[i])
}

/// A document that can be written: at least one record, every identifier valid.
pub open spec fn valid_doc(d: Seq<RecordModel>) -> bool {
    d.len() > 0 && forall|i: int| 0 <= i < d.len() ==> valid_id(#[trigger] d[i].0)
}

/// Whether no two records share an identifier.
pub open spec fn unique_ids(d: Seq<RecordModel>) -> bool {
    forall|i: int, j: int| 0 <= i < j < d.len() ==> d[i].0 != d[j].0
}

/// What a record line begins with.
pub open spec fn record_head(f: SourceFormat) -> Seq<char> {
    match f {
        SourceFormat::Json => seq!['{', '"', 'i', 'd', '"', ':', '"'],
        _ => seq!['r', 'e', 'c', 'o', 'r', 'd', ' '],
    }
}

/// What stands between a record's identifier and its value.
pub open spec fn record_mid(f: SourceFormat) -> Seq<char> {
    match f {
        SourceFormat::Json => seq!['"', ',', '"', 'v', 'a', 'l', 'u', 'e', '"', ':'],
        _ => seq![' '],
    }
}

/// What a record line ends with.
pub open spec fn record_tail(f: SourceFormat) -> Seq<char> {
    match f {
        SourceFormat::Json => seq!['}'],
        _ => Seq::empty(),
    }
}

/// The line that writes record `r` in format `f`.
pub open spec fn record_text(f: SourceFormat, r: RecordModel) -> Seq<char> {
    record_head(f) + r.0 + record_mid(f) + decimal(r.1 as nat) + record_tail(f)
}

/// A document written in format `f`: each record's line, ended by a newline.
pub open spec fn render(f: SourceFormat, d: Seq<RecordModel>) -> Seq<char>
    decreases d.len(),
{
    if d.len() == 0 {
        Seq::empty()
    } else {
        record_text(f, d[0]) + seq!['\n'] + render(f, d.skip(1))
    }
}

pub open spec fn newline_free(s: Seq<char>) -> bool {
    forall|i: int| 0 <= i < s.len() ==> s[i] != '\n'
}

pub proof fn lemma_render_push(f: SourceFormat, d: Seq<RecordModel>, r: RecordModel)
    ensures
        render(f, d.push(r)) == render(f, d) + record_text(f, r) + seq!['\n'],
    decreases d.len(),
{
    if d.len() == 0 {
        assert(d.push(r).skip(1) =~= Seq::<RecordModel>::empty());
        assert(render(f, d.push(r).skip(1)) == Seq::<char>::empty());
        assert(d.push(r)[0] == r);
        assert(render(f, d) == Seq::<char>::empty());
        assert(render(f, d.push(r)) =~= render(f, d) + record_text(f, r) + seq!['\n']);
    } else {
        lemma_render_push(f, d.skip(1), r);
        assert(d.push(r).skip(1) =~= d.skip(1).push(r));
        assert(d.push(r)[0] == d[0]);
        assert(render(f, d.push(r)) =~= render(f, d) + record_text(f, r) + seq!['\n']);
    }
}

pub proof fn lemma_render_split(f: SourceFormat, d: Seq<RecordModel>, k: int)
    requires
        0 <= k <= d.len(),
    ensures
        render(f, d) == render(f, d.take(k)) + render(f, d.skip(k)),
    decreases k,
{
    if k == 0 {
        assert(d.skip(0) =~= d);
        assert(render(f, d.take(0)) =~= Seq::<char>::empty());
        assert(render(f, d) =~= render(f, d.take(k)) + render(f, d.skip(k)));
    } else {
        let t = d.skip(1);
        lemma_render_split(f, t, k - 1);
        assert(d.take(k)[0] == d[0]);
        assert(d.take(k).skip(1) =~= t.take(k - 1));
        assert(t.skip(k - 1) =~= d.skip(k));
        assert(render(f, d) =~= render(f, d.take(k)) + render(f, d.skip(k)));
    }
}

/// Two lines that each end at the first newline are the same line.
pub proof fn lemma_first_line(a: Seq<char>, x: Seq<char>, b: Seq<char>, y: Seq<char>)
    requires
        newline_free(a),
        newline_free(b),
        a + seq!['\n'] + x == b + seq!['\n'] + y,
    ensures
        a == b,
        x == y,
{
    let s = a + seq!['\n'] + x;
    if a.len() < b.len() {
        assert(s[a.len() as int] == '\n');
        assert((b + seq!['\n'] + y)[a.len() as int] == b[a.len() as int]);
    } else if b.len() < a.len() {
        assert(s[b.len() as int] == a[b.len() as int]);
        assert((b + seq!['\n'] + y)[b.len() as int] == '\n');
    } else {
        assert(a =~= s.take(a.len() as int));
        assert(b =~= (b + seq!['\n'] + y).take(b.len() as int));
        assert(x =~= s.skip(a.len() as int + 1));
        assert(y =~= (b + seq!['\n'] + y).skip(b.len() as int + 1));
    }
}

pub proof fn lemma_record_text_facts(f: SourceFormat, r: RecordModel)
    requires
        valid_id(r.0),
    ensures
        newline_free(record_text(f, r)),
        record_text(f, r).len() > 0,
        record_text(f, r)[0] != '\n',
        ({
            let t = record_text(f, r);
            t[t.len() - 1] == '}' || is_digit(t[t.len() - 1])
        }),
{
    lemma_decimal_canonical(r.1 as nat);
    let h = record_head(f);
    let m = record_mid(f);
    let n = decimal(r.1 as nat);
    let t = record_text(f, r);
    assert forall|i: int| 0 <= i < t.len() implies t[i] != '\n' by {
        if i < h.len() {
            assert(t[i] == h[i]);
        } else if i < h.len() + r.0.len() {
            assert(t[i] == r.0[i - h.len()]);
        } else if i < h.len() + r.0.len() + m.len() {
            assert(t[i] == m[i - h.len() - r.0.len()]);
        } else if i < h.len() + r.0.len() + m.len() + n.len() {
            assert(t[i] == n[i - h.len() - r.0.len() - m.len()]);
        } else {
            assert(t[i] == record_tail(f)[i - h.len() - r.0.len() - m.len() - n.len()]);
        }
    }
    assert(t[0] == h[0]);
    if f == SourceFormat::Json {
        assert(t[t.len() - 1] == '}');
    } else {
        assert(t[t.len() - 1] == n[n.len() - 1]);
    }
}

/// Where the identifier of a record line ends: at the first character after
/// the head that cannot belong to an identifier.
pub proof fn lemma_id_end(f: SourceFormat, r: RecordModel, j: int)
    requires
        valid_id(r.0),
        record_head(f).len() <= j <= record_text(f, r).len(),
        forall|i: int|
            record_head(f).len() <= i < j ==> is_id_char(#[trigger] record_text(f, r)[i]),
        j == record_text(f, r).len() || !is_id_char(record_text(f, r)[j]),
    ensures
        j == record_head(f).len() + r.0.len(),
{
    let h = record_head(f);
    let t = record_text(f, r);
    let e = (h.len() + r.0.len()) as int;
    if j < e {
        assert(t[j] == r.0[j - h.len()]);
    } else if j > e {
        assert(t[e] == record_mid(f)[0]);
        assert(is_id_char(t[e]));
    }
}

pub(crate) fn head_chars(f: SourceFormat) -> (r: Vec<char>)
    ensures
        r@ == record_head(f),
{
    let r = match f {
        SourceFormat::Json => vec!['{', '"', 'i', 'd', '"', ':', '"'],
        _ => vec!['r', 'e', 'c', 'o', 'r', 'd', ' '],
    };
    assert(r@ =~= record_head(f));
    r
}

pub(crate) fn mid_chars(f: SourceFormat) -> (r: Vec<char>)
    ensures
        r@ == record_mid(f),
{
    let r = match f {
        SourceFormat::Json => vec!['"', ',', '"', 'v', 'a', 'l', 'u', 'e', '"', ':'],
        _ => vec![' '],
    };
    assert(r@ =~= record_mid(f));
    r
}

pub(crate) fn tail_chars(f: SourceFormat) -> (r: Vec<char>)
    ensures
        r@ == record_tail(f),
{
    let r = match f {
        SourceFormat::Json => vec!['}'],
        _ => Vec::new(),
    };
    assert(r@ =~= record_tail(f));
    r
}

} // verus!
