use vstd::prelude::*;
use crate::entries::{FileEntry, RankedList, models_of};
use crate::errors::SizerError;
use crate::numeral::{all_digits, dec_of, dec_val, is_digit, parse_u64, render_u64};
use crate::numeral::{lemma_dec_of_digits, lemma_dec_val_of_dec_of};

verus! {

// ---------------------------------------------------------------------------
// The shape of a log record.
//
// A ranking is persisted as one line per entry, in rank order:
// the path between double quotes, the separator ` - `, the size in
// decimal, and a newline. Parsing splits the record into lines, skips
// empty lines, splits each remaining line at its single ` - ` separator,
// strips quote characters from the first field and reads the second as
// an unsigned 64-bit decimal.
// ---------------------------------------------------------------------------
/// Whether the three-character separator ` - ` stands at position `i`.
pub open spec fn sep_at(s: Seq<char>, i: int) -> bool {
    &&& 0 <= i
    &&& i + 3 <= s.len()
    &&& s[i] == ' '
    &&& s[i + 1] == '-'
    &&& s[i + 2] == ' '
}

/// The position of the leftmost separator, or the length if there is none.
pub open spec fn first_sep(s: Seq<char>) -> nat
    decreases s.len(),
{
    if s.len() == 0 {
        0
    } else if sep_at(s, 0) {
        0
    } else {
        1 + first_sep(s.drop_first())
    }
}

/// The position of the leftmost newline, or the length if there is none.
pub open spec fn first_nl(s: Seq<char>) -> nat
    decreases s.len(),
{
    if s.len() == 0 {
        0
    } else if s[0] == '\n' {
        0
    } else {
        1 + first_nl(s.drop_first())
    }
}

/// `first_sep` is in bounds, points at a separator when one exists, and
/// nothing before it is one.
pub proof fn lemma_first_sep_spec(s: Seq<char>)
    ensures
        first_sep(s) <= s.len(),
        first_sep(s) < s.len() ==> sep_at(s, first_sep(s) as int),
        forall|j: int| 0 <= j < first_sep(s) ==> !sep_at(s, j),
    decreases s.len(),
{
    if s.len() > 0 && !sep_at(s, 0) {
        let r = s.drop_first();
        lemma_first_sep_spec(r);
        if first_sep(s) < s.len() {
            assert(sep_at(r, first_sep(r) as int));
            assert(sep_at(s, first_sep(s) as int));
        }
        assert forall|j: int| 0 <= j < first_sep(s) implies !sep_at(s, j) by {
            if j > 0 {
                assert(!sep_at(r, j - 1));
                if sep_at(s, j) {
                    assert(r[j - 1] == s[j]);
                    assert(r[j] == s[j + 1]);
                    assert(r[j + 1] == s[j + 2]);
                    assert(sep_at(r, j - 1));
                }
            }
        }
    }
}

/// Any position with the leftmost separator's properties is `first_sep`.
pub proof fn lemma_first_sep_unique(s: Seq<char>, k: int)
    requires
        0 <= k <= s.len(),
        k == s.len() || sep_at(s, k),
        forall|j: int| 0 <= j < k ==> !sep_at(s, j),
    ensures
        k == first_sep(s),
{
    lemma_first_sep_spec(s);
    let f = first_sep(s) as int;
    if k < f {
        assert(!sep_at(s, k));
    } else if f < k {
        assert(!sep_at(s, f));
    }
}

/// `first_nl` is in bounds, points at a newline when one exists, and
/// nothing before it is one.
pub proof fn lemma_first_nl_spec(s: Seq<char>)
    ensures
        first_nl(s) <= s.len(),
        first_nl(s) < s.len() ==> s[first_nl(s) as int] == '\n',
        forall|j: int| 0 <= j < first_nl(s) ==> s[j] != '\n',
    decreases s.len(),
{
    if s.len() > 0 && s[0] != '\n' {
        let r = s.drop_first();
        lemma_first_nl_spec(r);
        assert forall|j: int| 0 <= j < first_nl(s) implies s[j] != '\n' by {
            if j > 0 {
                assert(r[j - 1] == s[j]);
            }
        }
    }
}

/// Any position with the leftmost newline's properties is `first_nl`.
pub proof fn lemma_first_nl_unique(s: Seq<char>, k: int)
    requires
        0 <= k <= s.len(),
        k == s.len() || s[k] == '\n',
        forall|j: int| 0 <= j < k ==> s[j] != '\n',
    ensures
        k == first_nl(s),
{
    lemma_first_nl_spec(s);
    let f = first_nl(s) as int;
    if k < f {
        assert(s[k] != '\n');
    } else if f < k {
        assert(s[f] != '\n');
    }
}

/// The path recovered from a path field: every quote character stripped.
pub open spec fn strip_quotes(s: Seq<char>) -> Seq<char>
    decreases s.len(),
{
    if s.len() == 0 {
        Seq::empty()
    } else if s.last() == '"' {
        strip_quotes(s.drop_last())
    } else {
        strip_quotes(s.drop_last()).push(s.last())
    }
}

/// What one non-empty record line denotes, or `None` when it is
/// malformed: no separator, more than one separator, or a second field
/// that is not an unsigned 64-bit decimal.
pub open spec fn parse_line_spec(line: Seq<char>) -> Option<(Seq<char>, u64)> {
    let i = first_sep(line) as int;
    if !sep_at(line, i) {
        None
    } else {
        let path_field = line.take(i);
        let size_field = line.skip(i + 3);
        if sep_at(size_field, first_sep(size_field) as int) {
            None
        } else if size_field.len() > 0 && all_digits(size_field) && dec_val(size_field)
            <= u64::MAX {
            Some((strip_quotes(path_field), dec_val(size_field) as u64))
        } else {
            None
        }
    }
}

/// What a whole record denotes: its non-empty lines in order, or `None`
/// when any line is malformed. A record ending in a newline has no line
/// after that newline, so a single trailing newline never yields an
/// extra entry.
pub open spec fn parse_entries_spec(s: Seq<char>) -> Option<Seq<(Seq<char>, u64)>>
    decreases s.len(),
{
    if s.len() == 0 {
        Some(Seq::empty())
    } else {
        let i = first_nl(s) as int;
        let line = if i < s.len() {
            s.take(i)
        } else {
            s
        };
        let rest = if 0 <= i < s.len() {
            s.skip(i + 1)
        } else {
            Seq::empty()
        };
        match parse_entries_spec(rest) {
            None => None,
            Some(tail) => {
                if line.len() == 0 {
                    Some(tail)
                } else {
                    match parse_line_spec(line) {
                        None => None,
                        Some(e) => Some(seq![e] + tail),
                    }
                }
            },
        }
    }
}

/// The rendering of one entry: quoted path, separator, decimal size,
/// newline.
pub open spec fn render_entry_spec(e: (Seq<char>, u64)) -> Seq<char> {
    seq!['"'] + e.0 + seq!['"', ' ', '-', ' '] + dec_of(e.1 as nat) + seq!['\n']
}

/// The rendering of a ranking: its entries' lines in rank order.
pub open spec fn render_log_spec(es: Seq<(Seq<char>, u64)>) -> Seq<char>
    decreases es.len(),
{
    if es.len() == 0 {
        Seq::empty()
    } else {
        render_entry_spec(es[0]) + render_log_spec(es.drop_first())
    }
}

/// Appending one entry appends its line.
pub proof fn lemma_render_log_snoc(es: Seq<(Seq<char>, u64)>, e: (Seq<char>, u64))
    ensures
        render_log_spec(es.push(e)) == render_log_spec(es) + render_entry_spec(e),
    decreases es.len(),
{
    if es.len() == 0 {
        assert(es.push(e).drop_first() =~= Seq::<(Seq<char>, u64)>::empty());
        assert(es.push(e)[0] == e);
        assert(render_log_spec(es.push(e)) == render_entry_spec(e) + render_log_spec(
            Seq::<(Seq<char>, u64)>::empty(),
        ));
        assert(render_entry_spec(e) + Seq::<char>::empty() =~= Seq::<char>::empty()
            + render_entry_spec(e));
    } else {
        lemma_render_log_snoc(es.drop_first(), e);
        assert(es.push(e).drop_first() =~= es.drop_first().push(e));
        assert(es.push(e)[0] == es[0]);
        assert(render_log_spec(es.push(e)) == render_entry_spec(es[0]) + (render_log_spec(
            es.drop_first(),
        ) + render_entry_spec(e)));
        assert(render_entry_spec(es[0]) + (render_log_spec(es.drop_first()) + render_entry_spec(e))
            =~= (render_entry_spec(es[0]) + render_log_spec(es.drop_first())) + render_entry_spec(
            e,
        ));
    }
}

/// A path that survives the record format unchanged: it holds no quote
/// character, no newline, and no occurrence of the ` - ` separator.
/// Canonicalized absolute paths ordinarily satisfy this.
pub open spec fn path_ok(p: Seq<char>) -> bool {
    &&& forall|j: int| 0 <= j < p.len() ==> p[j] != '"' && p[j] != '\n'
    &&& forall|j: int| !sep_at(p, j)
}

/// Stripping quotes removes a leading quote before a quote-free string.
pub proof fn lemma_strip_quotes_front(p: Seq<char>)
    requires
        forall|j: int| 0 <= j < p.len() ==> p[j] != '"',
    ensures
        strip_quotes(seq!['"'] + p) == p,
    decreases p.len(),
{
    let q = seq!['"'] + p;
    if p.len() == 0 {
        assert(q.len() == 1);
        assert(q.last() == '"');
        assert(q.drop_last() =~= Seq::<char>::empty());
        assert(strip_quotes(Seq::<char>::empty()) =~= Seq::<char>::empty());
        assert(strip_quotes(q) =~= p);
    } else {
        lemma_strip_quotes_front(p.drop_last());
        assert(q.last() == p.last());
        assert(q.drop_last() =~= seq!['"'] + p.drop_last());
        assert(strip_quotes(q) == strip_quotes(seq!['"'] + p.drop_last()).push(p.last()));
        assert(p.drop_last().push(p.last()) =~= p);
    }
}

/// Stripping quotes recovers a quote-free path from its quoted field.
pub proof fn lemma_strip_quotes_quoted(p: Seq<char>)
    requires
        forall|j: int| 0 <= j < p.len() ==> p[j] != '"',
    ensures
        strip_quotes(seq!['"'] + p + seq!['"']) == p,
{
    let q = seq!['"'] + p + seq!['"'];
    assert(q.last() == '"');
    assert(q.drop_last() =~= seq!['"'] + p);
    lemma_strip_quotes_front(p);
}

/// Round-trip law: a ranking whose paths survive the record format is
/// recovered exactly by parsing its own rendering. In particular the
/// rendering's single trailing newline yields no extra entry, so the
/// bytes a save writes are the bytes a load parses back into the same
/// ranking.
pub proof fn lemma_log_round_trip(es: Seq<(Seq<char>, u64)>)
    requires
        forall|k: int| 0 <= k < es.len() ==> path_ok(#[trigger] es[k].0),
    ensures
        parse_entries_spec(render_log_spec(es)) == Some(es),
    decreases es.len(),
{
    if es.len() == 0 {
        assert(es =~= Seq::<(Seq<char>, u64)>::empty());
    } else {
        let e = es[0];
        let p = e.0;
        let sz = e.1;
        let d = dec_of(sz as nat);
        lemma_dec_of_digits(sz as nat);
        let a = seq!['"'] + p;
        let b = a + seq!['"', ' ', '-', ' '];
        let c0 = b + d;
        let re = render_entry_spec(e);
        assert(re == c0 + seq!['\n']);
        let tail = render_log_spec(es.drop_first());
        let full = render_log_spec(es);
        assert(full == re + tail);
        let ll = c0.len() as int;
        assert(re.len() == ll + 1);
        assert(path_ok(p));

        // The first newline of the whole record ends the first line.
        assert(full[ll] == '\n');
        assert forall|j: int| 0 <= j < ll implies full[j] != '\n' by {
            assert(full[j] == c0[j]);
            if j < b.len() {
                if j < a.len() {
                    if j == 0 {
                        assert(c0[j] == '"');
                    } else {
                        assert(c0[j] == p[j - 1]);
                    }
                } else {
                    assert(c0[j] == b[j]);
                }
            } else {
                assert(c0[j] == d[j - b.len()]);
                assert(is_digit(d[j - b.len()]));
            }
        }
        lemma_first_nl_unique(full, ll);
        let line = full.take(ll);
        assert(line =~= c0);
        let rest = full.skip(ll + 1);
        assert(rest =~= tail);

        // The first separator of the line is the one the rendering wrote.
        let s0 = p.len() as int + 2;
        assert(c0[s0] == ' ' && c0[s0 + 1] == '-' && c0[s0 + 2] == ' ');
        assert(sep_at(c0, s0));
        assert forall|j: int| 0 <= j < s0 implies !sep_at(c0, j) by {
            if sep_at(c0, j) {
                if j == 0 {
                    assert(c0[0] == '"');
                } else if j + 2 <= p.len() {
                    assert(c0[j] == p[j - 1]);
                    assert(c0[j + 1] == p[j]);
                    assert(c0[j + 2] == p[j + 1]);
                    assert(sep_at(p, j - 1));
                } else if j + 1 <= p.len() {
                    assert(c0[j + 2] == '"');
                } else if j <= p.len() {
                    assert(c0[j + 1] == '"');
                } else {
                    assert(c0[j] == '"');
                }
            }
        }
        lemma_first_sep_unique(c0, s0);

        // The two fields are the quoted path and the decimal size.
        let path_field = c0.take(s0);
        let size_field = c0.skip(s0 + 3);
        assert(path_field =~= seq!['"'] + p + seq!['"']);
        assert(size_field =~= d);
        lemma_strip_quotes_quoted(p);
        assert forall|j: int| 0 <= j < d.len() implies !sep_at(d, j) by {
            if sep_at(d, j) {
                assert(is_digit(d[j]));
            }
        }
        lemma_first_sep_unique(d, d.len() as int);
        assert(!sep_at(d, first_sep(d) as int));
        lemma_dec_val_of_dec_of(sz as nat);
        assert(parse_line_spec(line) == Some((p, sz)));

        // The remaining lines round-trip by induction.
        assert forall|k: int| 0 <= k < es.drop_first().len() implies path_ok(
            #[trigger] es.drop_first()[k].0,
        ) by {
            assert(es.drop_first()[k] == es[k + 1]);
        }
        lemma_log_round_trip(es.drop_first());

        assert(full.len() > 0);
        assert(line.len() > 0);
        assert(parse_entries_spec(full) == Some(seq![(p, sz)] + es.drop_first()));
        assert(seq![(p, sz)] + es.drop_first() =~= es);
    }
}

/// Saving a ranking and loading the record back yields the ranking
/// unchanged, provided its paths survive the record format — as
/// canonicalized absolute paths ordinarily do. Since a listing displays
/// the record's raw content, this is also what a display right after a
/// save shows: exactly the bytes a load parses back into the same
/// ranking.
pub proof fn lemma_save_load_round_trip(list: RankedList)
    requires
        forall|k: int| 0 <= k < list.model().len() ==> path_ok(#[trigger] list.model()[k].0),
    ensures
        parse_entries_spec(render_log_spec(list.model())) == Some(list.model()),
{
    lemma_log_round_trip(list.model());
}

/// Render one entry as its record line.
fn render_entry(e: &FileEntry) -> (r: String)
    ensures
        r@ == render_entry_spec(e.model()),
{
    let mut out = String::from_str("\"");
    out.append(e.path.as_str());
    out.append("\" - ");
    let num = render_u64(e.size);
    out.append(num.as_str());
    out.append("\n");
    proof {
        reveal_strlit("\"");
        reveal_strlit("\" - ");
        reveal_strlit("\n");
        assert(out@ =~= render_entry_spec(e.model()));
    }
    out
}

/// Render a ranking as the full text of its log record.
///
/// This is both what a save writes to the record and what a later
/// listing displays: the record's raw content.
pub fn render_log(list: &RankedList) -> (r: String)
    ensures
        r@ == render_log_spec(list.model()),
{
    let ghost m = list.model();
    let mut out = String::new();
    let mut i: usize = 0;
    while i < list.entries.len()
        invariant
            0 <= i <= list.entries@.len(),
            m == list.model(),
            out@ == render_log_spec(m.take(i as int)),
        decreases list.entries@.len() - i,
    {
        let line = render_entry(&list.entries[i]);
        out.append(line.as_str());
        proof {
            assert(m.take(i + 1).drop_last() =~= m.take(i as int));
            assert(m.take(i + 1).last() == m[i as int]);
            assert(m.take(i + 1) =~= m.take(i as int).push(m[i as int]));
            lemma_render_log_snoc(m.take(i as int), m[i as int]);
            assert(m[i as int] == list.entries@[i as int].model());
        }
        i = i + 1;
    }
    proof {
        assert(m.take(m.len() as int) =~= m);
    }
    out
}

/// Whether the separator stands at position `i` of the string.
fn sep_test(s: &str, i: usize) -> (r: bool)
    requires
        i + 3 <= s@.len(),
        s@.len() <= usize::MAX,
    ensures
        r == sep_at(s@, i as int),
{
    s.get_char(i) == ' ' && s.get_char(i + 1) == '-' && s.get_char(i + 2) == ' '
}

/// Find the leftmost separator, returning the length if there is none.
fn find_sep(s: &str) -> (r: usize)
    ensures
        r as nat == first_sep(s@),
        r <= s@.len(),
{
    let n = s.unicode_len();
    let mut i: usize = 0;
    while n >= 3 && i <= n - 3 && !sep_test(s, i)
        invariant
            0 <= i <= n,
            n == s@.len(),
            forall|j: int| 0 <= j < i ==> !sep_at(s@, j),
        decreases n - i,
    {
        i = i + 1;
    }
    if n < 3 || i > n - 3 {
        proof {
            assert forall|j: int| 0 <= j < n implies !sep_at(s@, j) by {
                if j >= i {
                    assert(j + 3 > n);
                }
            }
            lemma_first_sep_unique(s@, n as int);
        }
        n
    } else {
        proof {
            lemma_first_sep_unique(s@, i as int);
        }
        i
    }
}

/// Find the leftmost newline, returning the length if there is none.
fn find_nl(s: &str) -> (r: usize)
    ensures
        r as nat == first_nl(s@),
        r <= s@.len(),
{
    let n = s.unicode_len();
    let mut i: usize = 0;
    while i < n && s.get_char(i) != '\n'
        invariant
            0 <= i <= n,
            n == s@.len(),
            forall|j: int| 0 <= j < i ==> s@[j] != '\n',
        decreases n - i,
    {
        i = i + 1;
    }
    proof {
        lemma_first_nl_unique(s@, i as int);
    }
    i
}

/// Strip every quote character from a path field.
fn strip_quotes_exec(s: &str) -> (r: String)
    ensures
        r@ == strip_quotes(s@),
{
    let n = s.unicode_len();
    let mut out = String::new();
    let mut seg: usize = 0;
    let mut i: usize = 0;
    while i < n
        invariant
            0 <= seg <= i <= n,
            n == s@.len(),
            forall|j: int| seg <= j < i ==> s@[j] != '"',
            out@ + s@.subrange(seg as int, i as int) == strip_quotes(s@.take(i as int)),
        decreases n - i,
    {
        let c = s.get_char(i);
        proof {
            assert(s@.take(i + 1).drop_last() =~= s@.take(i as int));
            assert(s@.take(i + 1).last() == s@[i as int]);
        }
        if c == '"' {
            let piece = s.substring_char(seg, i);
            out.append(piece);
            seg = i + 1;
            proof {
                assert(s@.subrange(seg as int, i + 1) =~= Seq::<char>::empty());
                assert(out@ + s@.subrange(seg as int, i + 1) =~= out@);
            }
        } else {
            proof {
                assert(s@.subrange(seg as int, i + 1) =~= s@.subrange(seg as int, i as int).push(
                    s@[i as int],
                ));
                assert(out@ + s@.subrange(seg as int, i + 1) =~= (out@ + s@.subrange(
                    seg as int,
                    i as int,
                )).push(s@[i as int]));
            }
        }
        i = i + 1;
    }
    let piece = s.substring_char(seg, n);
    out.append(piece);
    proof {
        assert(s@.take(n as int) =~= s@);
    }
    out
}

/// Parse one non-empty record line into an entry.
fn parse_line_exec(line: &str) -> (r: Result<FileEntry, SizerError>)
    ensures
        match parse_line_spec(line@) {
            Some(pe) => r matches Ok(e) && e.path@ == pe.0 && e.size == pe.1,
            None => r matches Err(er) && er == SizerError::InvalidSize,
        },
{
    let n = line.unicode_len();
    let i = find_sep(line);
    proof {
        lemma_first_sep_spec(line@);
    }
    if i == n {
        proof {
            assert(!sep_at(line@, first_sep(line@) as int));
        }
        return Err(SizerError::InvalidSize);
    }
    assert(sep_at(line@, i as int));
    let path_field = line.substring_char(0, i);
    let size_field = line.substring_char(i + 3, n);
    proof {
        assert(path_field@ == line@.take(i as int));
        assert(size_field@ == line@.skip(i + 3));
    }
    let j = find_sep(size_field);
    if j < size_field.unicode_len() {
        proof {
            lemma_first_sep_spec(size_field@);
            assert(sep_at(size_field@, first_sep(size_field@) as int));
        }
        return Err(SizerError::InvalidSize);
    }
    proof {
        assert(!sep_at(size_field@, first_sep(size_field@) as int));
    }
    match parse_u64(size_field) {
        Err(_) => Err(SizerError::InvalidSize),
        Ok(v) => {
            let path = strip_quotes_exec(path_field);
            Ok(FileEntry { path, size: v })
        },
    }
}

/// Parse a whole log record back into its entries.
///
/// Succeeds exactly when every non-empty line of the record has the
/// shape `"<quoted-path> - <size>"`, and then returns those entries in
/// record order; any malformed line aborts the load with `InvalidSize`.
/// A single trailing newline is tolerated and yields no extra entry.
pub fn parse_log(text: &str) -> (r: Result<Vec<FileEntry>, SizerError>)
    ensures
        match parse_entries_spec(text@) {
            Some(es) => r matches Ok(v) && models_of(v@) == es,
            None => r matches Err(er) && er == SizerError::InvalidSize,
        },
    decreases text@.len(),
{
    let n = text.unicode_len();
    if n == 0 {
        let v: Vec<FileEntry> = Vec::new();
        proof {
            assert(models_of(v@) =~= Seq::<(Seq<char>, u64)>::empty());
        }
        return Ok(v);
    }
    let i = find_nl(text);
    proof {
        lemma_first_nl_spec(text@);
    }
    let line = text.substring_char(0, i);
    let ghost line_spec = if i < n {
        text@.take(i as int)
    } else {
        text@
    };
    let ghost rest_spec = if i < n {
        text@.skip(i + 1)
    } else {
        Seq::<char>::empty()
    };
    proof {
        if i == n {
            assert(text@.take(n as int) =~= text@);
        }
        assert(line@ == line_spec);
    }
    let tail = if i < n {
        let rest = text.substring_char(i + 1, n);
        proof {
            assert(rest@ == rest_spec);
        }
        parse_log(rest)
    } else {
        let empty_tail: Vec<FileEntry> = Vec::new();
        proof {
            assert(models_of(empty_tail@) =~= Seq::<(Seq<char>, u64)>::empty());
            assert(parse_entries_spec(rest_spec) == Some(Seq::<(Seq<char>, u64)>::empty()));
        }
        Ok(empty_tail)
    };
    match tail {
        Err(er) => {
            proof {
                assert(parse_entries_spec(rest_spec) is None);
                assert(parse_entries_spec(text@) is None);
            }
            Err(er)
        },
        Ok(tail_vec) => {
            let ghost tail_es = parse_entries_spec(rest_spec)->0;
            proof {
                assert(models_of(tail_vec@) == tail_es);
            }
            if line.unicode_len() == 0 {
                proof {
                    assert(parse_entries_spec(text@) == Some(tail_es));
                }
                Ok(tail_vec)
            } else {
                match parse_line_exec(line) {
                    Err(er) => {
                        proof {
                            assert(parse_line_spec(line_spec) is None);
                            assert(parse_entries_spec(text@) is None);
                        }
                        Err(er)
                    },
                    Ok(e) => {
                        let ghost pe = parse_line_spec(line_spec)->0;
                        let ghost tv = tail_vec@;
                        let mut v = tail_vec;
                        v.insert(0, e);
                        proof {
                            assert(v@ =~= seq![e] + tv);
                            assert(e.model() == pe);
                            assert(models_of(v@) =~= seq![pe] + models_of(tv));
                            assert(parse_entries_spec(text@) == Some(seq![pe] + tail_es));
                        }
                        Ok(v)
                    },
                }
            }
        },
    }
}

} // verus!
