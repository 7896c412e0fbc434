use vstd::prelude::*;

use crate::decimal::{decimal, lemma_decimal_canonical, parse_decimal};
use crate::document::{
    is_id_char, lemma_first_line, lemma_id_end, lemma_record_text_facts, lemma_render_push, lemma_render_split,
    head_chars, mid_chars, newline_free, record_head, record_mid, record_tail, record_text,
    tail_chars, render, valid_doc, valid_id,
    Document, Record, RecordModel, SourceFormat,
};
use crate::text::{chars_of, common_prefix_len, matches_at, string_of, trim_end, trimmed_len};

verus! {

/// Where parsing stopped: the 1-based line that is not a record, the
/// character offset at which that line starts, and the 1-based column at
/// which the line stops being the start of a record.
#[derive(Clone, Copy, Debug, PartialEq, Eq, Structural)]
pub struct SyntaxError {
    pub line: usize,
    pub offset: usize,
    pub column: usize,
}

/// `p` can begin the line of some valid record.
pub open spec fn can_begin_record(f: SourceFormat, p: Seq<char>) -> bool {
    exists|m: RecordModel| valid_id(m.0) && p.is_prefix_of(#[trigger] record_text(f, m))
}

/// What the head, an identifier and part of the middle spell can begin a record.
proof fn lemma_begins_record(f: SourceFormat, p: Seq<char>, id: Seq<char>, c: int)
    requires
        id.len() == 0 ==> c == 0,
        forall|i: int| 0 <= i < id.len() ==> is_id_char(#[trigger] id[i]),
        0 <= c <= record_mid(f).len(),
        id.len() == 0 ==> p.len() <= record_head(f).len() && p == record_head(f).take(p.len() as int),
        id.len() > 0 ==> p == record_head(f) + id + record_mid(f).take(c),
    ensures
        can_begin_record(f, p),
{
    let m: RecordModel = if id.len() == 0 { (seq!['a'], 0u64) } else { (id, 0u64) };
    assert(is_id_char(m.0[0]));
    assert(valid_id(m.0));
    let t = record_text(f, m);
    assert(p =~= t.subrange(0, p.len() as int));
}

/// The text that the parser reads: the input without trailing whitespace,
/// ended by one newline.
pub open spec fn body_of(text: Seq<char>) -> Seq<char> {
    trim_end(text) + seq!['\n']
}

/// `d` is what `text` says in format `f`: a valid document whose rendering is
/// the text, trailing whitespace aside.
pub open spec fn is_rendering(f: SourceFormat, d: Seq<RecordModel>, text: Seq<char>) -> bool {
    valid_doc(d) && render(f, d) == body_of(text)
}

/// Line `line` of `body`, starting at `offset`, is the first line that is not
/// a record: the lines before it are the records `recs`.
pub open spec fn bad_line_at(f: SourceFormat, body: Seq<char>, line: nat, offset: nat) -> bool {
    exists|recs: Seq<RecordModel>|
        {
            &&& recs.len() + 1 == line
            &&& forall|i: int| 0 <= i < recs.len() ==> valid_id(#[trigger] recs[i].0)
            &&& offset <= body.len()
            &&& body.take(offset as int) == render(f, recs)
            &&& forall|m: RecordModel|
                valid_id(m.0) ==> !(#[trigger] record_text(f, m) + seq!['\n']).is_prefix_of(
                    body.skip(offset as int),
                )
        }
}

fn id_char(c: char) -> (b: bool)
    ensures
        b == is_id_char(c),
{
    ('0' <= c && c <= '9') || ('a' <= c && c <= 'z') || ('A' <= c && c <= 'Z') || c == '_' || c
        == '-'
}

/// How a line that writes record `m` splits: identifier, middle, value and
/// tail stand where the scan of the identifier's characters says.
pub proof fn lemma_line_layout(f: SourceFormat, s: Seq<char>, start: int, end: int, j: int, m: RecordModel)
    requires
        0 <= start <= end <= s.len(),
        start + record_head(f).len() <= j <= end,
        forall|i: int| start + record_head(f).len() <= i < j ==> is_id_char(#[trigger] s[i]),
        j == end || !is_id_char(s[j]),
        valid_id(m.0),
        s.subrange(start, end) == record_text(f, m),
    ensures
        ({
            let ml = record_mid(f).len() as int;
            let tl = record_tail(f).len() as int;
            &&& j == start + record_head(f).len() + m.0.len()
            &&& s.subrange(start + record_head(f).len(), j) == m.0
            &&& j + ml <= end
            &&& s.subrange(j, j + ml) == record_mid(f)
            &&& j + ml + tl <= end
            &&& s.subrange(end - tl, end) == record_tail(f)
            &&& s.subrange(j + ml, end - tl) == decimal(m.1 as nat)
        }),
{
    let t = s.subrange(start, end);
    let hl = record_head(f).len() as int;
    let ml = record_mid(f).len() as int;
    let tl = record_tail(f).len() as int;
    assert forall|i: int| hl <= i < j - start implies is_id_char(#[trigger] t[i]) by {
        assert(t[i] == s[start + i]);
    }
    if j < end {
        assert(t[j - start] == s[j]);
    }
    lemma_id_end(f, m, j - start);
    let il = m.0.len() as int;
    assert(m.0 =~= t.subrange(hl, hl + il));
    assert(s.subrange(start + hl, j) =~= t.subrange(hl, hl + il));
    assert(s.subrange(j, j + ml) =~= t.subrange(hl + il, hl + il + ml));
    assert(record_mid(f) =~= t.subrange(hl + il, hl + il + ml));
    assert(s.subrange(end - tl, end) =~= t.subrange(t.len() - tl, t.len() as int));
    assert(record_tail(f) =~= t.subrange(t.len() - tl, t.len() as int));
    assert(s.subrange(j + ml, end - tl) =~= t.subrange(hl + il + ml, t.len() - tl));
    assert(decimal(m.1 as nat) =~= t.subrange(hl + il + ml, t.len() - tl));
}

/// Reads the record that `s[start..end]` writes, if it writes one.
fn parse_line(f: SourceFormat, s: &Vec<char>, start: usize, end: usize) -> (r: Result<Record, usize>)
    requires
        start <= end <= s@.len(),
    ensures
        r is Ok ==> valid_id(r->Ok_0@.0) && s@.subrange(start as int, end as int)
            == record_text(f, r->Ok_0@),
        forall|m: RecordModel|
            valid_id(m.0) && s@.subrange(start as int, end as int) == #[trigger] record_text(f, m)
                ==> r is Ok && r->Ok_0@ == m,
        r is Err ==> start + r->Err_0 <= end && can_begin_record(
            f,
            s@.subrange(start as int, start + r->Err_0),
        ),
{
    let ghost t = s@.subrange(start as int, end as int);
    let head = head_chars(f);
    let mid = mid_chars(f);
    let tail = tail_chars(f);
    if head.len() > end - start || !matches_at(s, start, &head) {
        assert forall|m: RecordModel|
            valid_id(m.0) && t == #[trigger] record_text(f, m) implies false by {
            assert(t.subrange(0, head@.len() as int) =~= head@);
            assert(s@.subrange(start as int, start + head@.len()) =~= t.subrange(
                0,
                head@.len() as int,
            ));
        }
        let c = common_prefix_len(s, start, &head, end);
        proof {
            lemma_begins_record(f, s@.subrange(start as int, start + c), Seq::empty(), 0);
        }
        return Err(c);
    }
    let id_start = start + head.len();
    let mut j: usize = id_start;
    let mut id: Vec<char> = Vec::new();
    while j < end && id_char(s[j])
        invariant
            id_start <= j <= end <= s@.len(),
            id@ == s@.subrange(id_start as int, j as int),
            forall|i: int| id_start <= i < j ==> is_id_char(#[trigger] s@[i]),
        decreases end - j,
    {
        id.push(s[j]);
        j = j + 1;
        assert(id@ =~= s@.subrange(id_start as int, j as int));
    }
    let ghost hl = head@.len() as int;
    let ghost ml = mid@.len() as int;
    let ghost tl = tail@.len() as int;
    proof {
        assert forall|m: RecordModel|
            valid_id(m.0) && t == #[trigger] record_text(f, m) implies {
                &&& j == id_start + m.0.len()
                &&& id@ == m.0
                &&& j + ml <= end
                &&& s@.subrange(j as int, j + ml) == mid@
                &&& j + ml + tl <= end
                &&& s@.subrange(end - tl, end as int) == tail@
                &&& s@.subrange(j + ml, end - tl) == decimal(m.1 as nat)
            } by {
            lemma_line_layout(f, s@, start as int, end as int, j as int, m);
        }
    }
    assert(s@.subrange(start as int, id_start as int) =~= head@);
    if id.len() == 0 {
        proof {
            assert(s@.subrange(start as int, id_start as int) =~= head@.take(hl));
            lemma_begins_record(f, s@.subrange(start as int, id_start as int), Seq::empty(), 0);
        }
        return Err(head.len());
    }
    if mid.len() > end - j || !matches_at(s, j, &mid) {
        let c = common_prefix_len(s, j, &mid, end);
        proof {
            assert(s@.subrange(start as int, j + c) =~= head@ + id@ + mid@.take(c as int));
            lemma_begins_record(f, s@.subrange(start as int, j + c), id@, c as int);
        }
        return Err(j - start + c);
    }
    let k = j + mid.len();
    proof {
        assert(mid@.take(ml) =~= mid@);
        assert(s@.subrange(start as int, k as int) =~= head@ + id@ + mid@.take(ml));
        lemma_begins_record(f, s@.subrange(start as int, k as int), id@, ml);
    }
    if tail.len() > end - k {
        return Err(k - start);
    }
    let vend = end - tail.len();
    if !matches_at(s, vend, &tail) {
        return Err(k - start);
    }
    match parse_decimal(s, k, vend) {
        None => Err(k - start),
        Some(v) => {
            let rec = Record { id: string_of(&id), value: v };
            proof {
                assert(t =~= record_text(f, rec@)) by {
                    assert(t =~= s@.subrange(start as int, id_start as int) + s@.subrange(
                        id_start as int,
                        j as int,
                    ) + s@.subrange(j as int, k as int) + s@.subrange(k as int, vend as int)
                        + s@.subrange(vend as int, end as int));
                }
                assert forall|m: RecordModel|
                    valid_id(m.0) && t == #[trigger] record_text(f, m) implies rec@ == m by {
                    lemma_decimal_canonical(v as nat);
                    lemma_decimal_canonical(m.1 as nat);
                }
            }
            Ok(rec)
        },
    }
}

/// The next line of a rendering that agrees with the records read so far is
/// the line of its next record.
proof fn lemma_next_line(
    f: SourceFormat,
    d: Seq<RecordModel>,
    k: int,
    body: Seq<char>,
    pos: int,
    nl: int,
)
    requires
        valid_doc(d),
        render(f, d) == body,
        0 <= k <= d.len(),
        0 <= pos <= nl < body.len(),
        body.take(pos) == render(f, d.take(k)),
        body[nl] == '\n',
        newline_free(body.subrange(pos, nl)),
    ensures
        k < d.len(),
        body.subrange(pos, nl) == record_text(f, d[k]),
{
    lemma_render_split(f, d, k);
    let rest = d.skip(k);
    assert(body.skip(pos) =~= render(f, rest));
    if rest.len() == 0 {
        assert(render(f, rest).len() == 0);
    }
    assert(rest[0] == d[k]);
    lemma_record_text_facts(f, d[k]);
    assert(body.skip(pos) =~= body.subrange(pos, nl) + seq!['\n'] + body.skip(nl + 1));
    lemma_first_line(
        body.subrange(pos, nl),
        body.skip(nl + 1),
        record_text(f, d[k]),
        render(f, rest.skip(1)),
    );
}

/// Parses `content`, written in format `f`, into a document. It succeeds
/// exactly when some valid document renders as `content` (trailing
/// whitespace aside), and then returns that document; otherwise it names the
/// first line that is not a record.
pub fn parse(f: SourceFormat, content: &str) -> (r: Result<Document, SyntaxError>)
    ensures
        r is Ok ==> is_rendering(f, r->Ok_0@, content@),
        forall|d: Seq<RecordModel>| #[trigger]
            is_rendering(f, d, content@) ==> r is Ok && r->Ok_0@ == d,
        r is Err ==> bad_line_at(
            f,
            body_of(content@),
            r->Err_0.line as nat,
            r->Err_0.offset as nat,
        ),
        r is Err ==> r->Err_0.column >= 1 && r->Err_0.offset + r->Err_0.column - 1 <= body_of(
            content@,
        ).len() && can_begin_record(
            f,
            body_of(content@).subrange(
                r->Err_0.offset as int,
                r->Err_0.offset + r->Err_0.column - 1,
            ),
        ),
{
    let mut body = chars_of(content);
    let n = trimmed_len(&body);
    body.truncate(n);
    body.push('\n');
    assert(body@ =~= body_of(content@));
    assert(body@[body@.len() - 1] == '\n');
    let mut records: Vec<Record> = Vec::new();
    let mut pos: usize = 0;
    let ghost mut recs: Seq<RecordModel> = Seq::empty();
    assert(body@.take(0) =~= render(f, recs));
    while pos < body.len()
        invariant
            body@ == body_of(content@),
            body@[body@.len() - 1] == '\n',
            pos <= body@.len(),
            recs.len() <= pos,
            body@.take(pos as int) == render(f, recs),
            forall|i: int| 0 <= i < recs.len() ==> valid_id(#[trigger] recs[i].0),
            recs == records@.map_values(|r: Record| r@),
            forall|d: Seq<RecordModel>| #[trigger]
                is_rendering(f, d, content@) ==> recs.len() <= d.len() && d.take(recs.len() as int)
                    == recs,
        decreases body@.len() - pos,
    {
        let blen = body.len();
        let mut nl: usize = pos;
        while body[nl] != '\n'
            invariant
                blen == body@.len(),
                body@ == body_of(content@),
                body@[body@.len() - 1] == '\n',
                pos <= nl < body@.len(),
                forall|i: int| pos <= i < nl ==> body@[i] != '\n',
            decreases body@.len() - nl,
        {
            assert(body@[nl as int] != '\n');
            assert(nl + 1 < body@.len());
            nl = nl + 1;
        }
        let ghost line = body@.subrange(pos as int, nl as int);
        assert(newline_free(line));
        assert(body@.skip(pos as int) =~= line + seq!['\n'] + body@.skip(nl + 1));
        match parse_line(f, &body, pos, nl) {
            Err(c) => {
                proof {
                    assert forall|d: Seq<RecordModel>|
                        #[trigger] is_rendering(f, d, content@) implies false by {
                        lemma_next_line(f, d, recs.len() as int, body@, pos as int, nl as int);
                    }
                    assert forall|m: RecordModel| valid_id(m.0) implies !(#[trigger] record_text(
                        f,
                        m,
                    ) + seq!['\n']).is_prefix_of(body@.skip(pos as int)) by {
                        let p = record_text(f, m) + seq!['\n'];
                        if p.is_prefix_of(body@.skip(pos as int)) {
                            lemma_record_text_facts(f, m);
                            assert(body@.skip(pos as int) =~= record_text(f, m) + seq!['\n']
                                + body@.skip(pos as int).skip(p.len() as int));
                            lemma_first_line(
                                line,
                                body@.skip(nl + 1),
                                record_text(f, m),
                                body@.skip(pos as int).skip(p.len() as int),
                            );
                        }
                    }
                    assert(bad_line_at(f, body@, (recs.len() + 1) as nat, pos as nat));
                }
                return Err(SyntaxError { line: records.len() + 1, offset: pos, column: c + 1 });
            },
            Ok(rec) => {
                proof {
                    assert forall|d: Seq<RecordModel>| #[trigger]
                        is_rendering(f, d, content@) implies recs.len() + 1 <= d.len() && d.take(
                        recs.len() as int + 1,
                    ) == recs.push(rec@) by {
                        lemma_next_line(f, d, recs.len() as int, body@, pos as int, nl as int);
                        assert(d.take(recs.len() as int + 1) =~= d.take(recs.len() as int).push(
                            d[recs.len() as int],
                        ));
                    }
                    lemma_render_push(f, recs, rec@);
                    assert(body@.take(nl + 1) =~= body@.take(pos as int) + line + seq!['\n']);
                    recs = recs.push(rec@);
                }
                records.push(rec);
                assert(recs =~= records@.map_values(|r: Record| r@));
                pos = nl + 1;
            },
        }
    }
    assert(body@.take(pos as int) =~= body@);
    if records.len() == 0 {
        assert(recs.len() == 0);
        assert(false);
    }
    let doc = Document { records };
    assert(doc@ == recs);
    proof {
        assert forall|d: Seq<RecordModel>| #[trigger] is_rendering(f, d, content@) implies d
            == recs by {
            lemma_render_split(f, d, recs.len() as int);
            assert(render(f, d.skip(recs.len() as int)).len() == 0);
            if d.len() > recs.len() {
                assert(d.skip(recs.len() as int).len() > 0);
                lemma_record_text_facts(f, d[recs.len() as int]);
                assert(d.skip(recs.len() as int)[0] == d[recs.len() as int]);
            }
            assert(d =~= d.take(recs.len() as int));
        }
    }
    Ok(doc)
}

} // verus!
