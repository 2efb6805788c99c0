//! The caption table codec: the persisted form of the table is tabular
//! text with a header row, one data row per image, fields separated by
//! commas and rows by line feeds. A field containing a comma, a quote,
//! a line feed or a carriage return is written inside double quotes,
//! with inner quotes doubled. Decoding reverses this exactly; the
//! round-trip law is proved at the end of the module.

use vstd::prelude::*;
use crate::record::CaptionRecord;
use crate::paths::filename_of;
use crate::paths::join_path;
use crate::paths::join_path_str;
use crate::CaptionError;

verus! {

/// Whether a character separates fields or rows.
pub open spec fn is_delim(c: char) -> bool {
    c == ',' || c == '\n'
}

/// Whether a field must be written inside quotes.
pub open spec fn needs_quoting(f: Seq<char>) -> bool {
    exists|i: int| 0 <= i < f.len() && (f[i] == ',' || f[i] == '"' || f[i] == '\n' || f[i] == '\r')
}

/// The encoding of one character inside a quoted field.
pub open spec fn esc_char(c: char) -> Seq<char> {
    if c == '"' {
        seq!['"', '"']
    } else {
        seq![c]
    }
}

/// A field's content with every quote doubled.
pub open spec fn escape_quotes(f: Seq<char>) -> Seq<char>
    decreases f.len(),
{
    if f.len() == 0 {
        Seq::empty()
    } else {
        esc_char(f[0]) + escape_quotes(f.drop_first())
    }
}

/// The encoding of one field: quoted and escaped when it contains a
/// special character, written as it is otherwise.
pub open spec fn encode_field(f: Seq<char>) -> Seq<char> {
    if needs_quoting(f) {
        seq!['"'] + escape_quotes(f) + seq!['"']
    } else {
        f
    }
}

/// The encoding of one data row: two fields and a terminating line feed.
pub open spec fn encode_row(a: Seq<char>, b: Seq<char>) -> Seq<char> {
    encode_field(a) + seq![','] + encode_field(b) + seq!['\n']
}

/// The encoding of a sequence of data rows.
pub open spec fn encode_rows(pairs: Seq<(Seq<char>, Seq<char>)>) -> Seq<char>
    decreases pairs.len(),
{
    if pairs.len() == 0 {
        Seq::empty()
    } else {
        encode_row(pairs[0].0, pairs[0].1) + encode_rows(pairs.drop_first())
    }
}

/// The header row of a caption table.
pub open spec fn header_row() -> Seq<char> {
    encode_row("Image"@, "Caption"@)
}

/// The full encoding of a caption table: the header row followed by the
/// data rows.
pub open spec fn encode_table(pairs: Seq<(Seq<char>, Seq<char>)>) -> Seq<char> {
    header_row() + encode_rows(pairs)
}

/// The `(file name, caption)` pairs of a sequence of records.
pub open spec fn table_pairs(records: Seq<CaptionRecord>) -> Seq<(Seq<char>, Seq<char>)> {
    records.map_values(|r: CaptionRecord| (filename_of(r.image_path@), r.caption@))
}

/// The index of the first field or row separator at or after `i`.
pub open spec fn scan_unquoted(s: Seq<char>, i: int) -> int
    decreases s.len() - i,
    when 0 <= i <= s.len()
{
    if i == s.len() {
        i
    } else if is_delim(s[i]) {
        i
    } else {
        scan_unquoted(s, i + 1)
    }
}

/// Decodes the remainder of a quoted field starting at `i` (just past
/// the opening quote): the field's content and the index just past the
/// closing quote, or nothing when the quote is never closed.
pub open spec fn parse_quoted(s: Seq<char>, i: int) -> Option<(Seq<char>, int)>
    decreases s.len() - i,
    when 0 <= i <= s.len()
{
    if i == s.len() {
        None
    } else if s[i] == '"' {
        if i + 1 < s.len() && s[i + 1] == '"' {
            match parse_quoted(s, i + 2) {
                Some((f, j)) => Some((seq!['"'] + f, j)),
                None => None,
            }
        } else {
            Some((Seq::empty(), i + 1))
        }
    } else {
        match parse_quoted(s, i + 1) {
            Some((f, j)) => Some((seq![s[i]] + f, j)),
            None => None,
        }
    }
}

/// Where the scan of an unquoted field ends, relative to where it
/// started.
pub proof fn lemma_scan_bounds(s: Seq<char>, i: int)
    requires
        0 <= i <= s.len(),
    ensures
        i <= scan_unquoted(s, i) <= s.len(),
    decreases s.len() - i,
{
    if i < s.len() && !is_delim(s[i]) {
        lemma_scan_bounds(s, i + 1);
    }
}

/// Where the decoding of a quoted field ends, relative to where it
/// started.
pub proof fn lemma_parse_quoted_bounds(s: Seq<char>, i: int)
    requires
        0 <= i <= s.len(),
    ensures
        parse_quoted(s, i) matches Some((f, j)) ==> i < j <= s.len(),
    decreases s.len() - i,
{
    if i < s.len() {
        if s[i] == '"' {
            if i + 1 < s.len() && s[i + 1] == '"' {
                lemma_parse_quoted_bounds(s, i + 2);
            }
        } else {
            lemma_parse_quoted_bounds(s, i + 1);
        }
    }
}

/// Decodes one field starting at `i`: its content and the index of the
/// separator (or the end of the text) that follows it.
pub open spec fn parse_field(s: Seq<char>, i: int) -> Option<(Seq<char>, int)> {
    if i < s.len() && s[i] == '"' {
        parse_quoted(s, i + 1)
    } else {
        Some((s.subrange(i, scan_unquoted(s, i)), scan_unquoted(s, i)))
    }
}

/// Where the decoding of a field ends, relative to where it started.
pub proof fn lemma_parse_field_bounds(s: Seq<char>, i: int)
    requires
        0 <= i <= s.len(),
    ensures
        parse_field(s, i) matches Some((f, j)) ==> i <= j <= s.len(),
{
    if i < s.len() && s[i] == '"' {
        lemma_parse_quoted_bounds(s, i + 1);
    } else {
        lemma_scan_bounds(s, i);
    }
}

/// Decodes one row starting at `i`: its fields and the index just past
/// the row's terminating line feed (or the end of the text). Fails when
/// a quoted field is unterminated or followed by anything but a
/// separator.
pub open spec fn parse_row(s: Seq<char>, i: int) -> Option<(Seq<Seq<char>>, int)>
    decreases s.len() - i,
    when 0 <= i <= s.len()
{
    match parse_field(s, i) {
        None => None,
        Some((f, j)) => {
            proof {
                lemma_parse_field_bounds(s, i);
            }
            if j == s.len() {
                Some((seq![f], j))
            } else if s[j] == '\n' {
                Some((seq![f], j + 1))
            } else if s[j] == ',' {
                match parse_row(s, j + 1) {
                    Some((fs, k)) => Some((seq![f] + fs, k)),
                    None => None,
                }
            } else {
                None
            }
        },
    }
}

/// Where the decoding of a row ends, relative to where it started, and
/// that a row always has at least one field.
pub proof fn lemma_parse_row_bounds(s: Seq<char>, i: int)
    requires
        0 <= i <= s.len(),
    ensures
        parse_row(s, i) matches Some((fs, k)) ==> i <= k <= s.len() && fs.len() >= 1 && (i < s.len()
            ==> i < k),
    decreases s.len() - i,
{
    lemma_parse_field_bounds(s, i);
    match parse_field(s, i) {
        Some((f, j)) => {
            if j < s.len() && s[j] == ',' {
                lemma_parse_row_bounds(s, j + 1);
            }
        },
        None => {},
    }
}

/// Decodes the data rows starting at `i`, numbering them from `row`:
/// the `(file name, caption)` pairs, or the number of the first row
/// that is malformed or has fewer than two fields.
pub open spec fn parse_rows(s: Seq<char>, i: int, row: int) -> Result<
    Seq<(Seq<char>, Seq<char>)>,
    int,
>
    decreases s.len() - i,
    when 0 <= i <= s.len()
{
    if i == s.len() {
        Ok(Seq::empty())
    } else {
        match parse_row(s, i) {
            None => Err(row),
            Some((fs, k)) => {
                proof {
                    lemma_parse_row_bounds(s, i);
                }
                if fs.len() < 2 {
                    Err(row)
                } else {
                    match parse_rows(s, k, row + 1) {
                        Ok(rest) => Ok(seq![(fs[0], fs[1])] + rest),
                        Err(e) => Err(e),
                    }
                }
            },
        }
    }
}

/// Decodes a whole caption table: the first row (the header, whose
/// content is ignored) followed by the data rows. Empty text is an
/// empty table. The error is the number of the offending row, the
/// header being row zero.
pub open spec fn parse_table(s: Seq<char>) -> Result<Seq<(Seq<char>, Seq<char>)>, int> {
    if s.len() == 0 {
        Ok(Seq::empty())
    } else {
        match parse_row(s, 0) {
            None => Err(0),
            Some((_, k)) => parse_rows(s, k, 1),
        }
    }
}

/// Escaping a field extended by one character appends that character's
/// encoding.
pub proof fn lemma_escape_push(f: Seq<char>, c: char)
    ensures
        escape_quotes(f.push(c)) == escape_quotes(f) + esc_char(c),
    decreases f.len(),
{
    if f.len() == 0 {
        assert(f.push(c)[0] == c);
        assert(f.push(c).drop_first() =~= Seq::<char>::empty());
        assert(escape_quotes(f.push(c)) == esc_char(c) + escape_quotes(Seq::<char>::empty()));
        assert(escape_quotes(f.push(c)) =~= escape_quotes(f) + esc_char(c));
    } else {
        let t = f.drop_first();
        assert(f.push(c)[0] == f[0]);
        assert(f.push(c).drop_first() =~= t.push(c));
        lemma_escape_push(t, c);
        assert(escape_quotes(f.push(c)) == esc_char(f[0]) + (escape_quotes(t) + esc_char(c)));
        assert(escape_quotes(f) == esc_char(f[0]) + escape_quotes(t));
        assert(esc_char(f[0]) + (escape_quotes(t) + esc_char(c)) =~= (esc_char(f[0])
            + escape_quotes(t)) + esc_char(c));
    }
}

/// Encoding one more row appends that row's encoding.
pub proof fn lemma_encode_rows_push(pairs: Seq<(Seq<char>, Seq<char>)>, x: (Seq<char>, Seq<char>))
    ensures
        encode_rows(pairs.push(x)) == encode_rows(pairs) + encode_row(x.0, x.1),
    decreases pairs.len(),
{
    if pairs.len() == 0 {
        assert(pairs.push(x)[0] == x);
        assert(pairs.push(x).drop_first() =~= Seq::<(Seq<char>, Seq<char>)>::empty());
        assert(encode_rows(pairs.push(x)) == encode_row(x.0, x.1) + encode_rows(
            Seq::<(Seq<char>, Seq<char>)>::empty(),
        ));
        assert(encode_rows(pairs.push(x)) =~= encode_rows(pairs) + encode_row(x.0, x.1));
    } else {
        let t = pairs.drop_first();
        let r0 = encode_row(pairs[0].0, pairs[0].1);
        assert(pairs.push(x)[0] == pairs[0]);
        assert(pairs.push(x).drop_first() =~= t.push(x));
        lemma_encode_rows_push(t, x);
        assert(encode_rows(pairs.push(x)) == r0 + (encode_rows(t) + encode_row(x.0, x.1)));
        assert(encode_rows(pairs) == r0 + encode_rows(t));
        assert(r0 + (encode_rows(t) + encode_row(x.0, x.1)) =~= (r0 + encode_rows(t))
            + encode_row(x.0, x.1));
    }
}

/// The scan of an unquoted field stops exactly at the first separator.
proof fn lemma_scan_stops(s: Seq<char>, i: int, j: int)
    requires
        0 <= i <= j <= s.len(),
        forall|k: int| i <= k < j ==> !is_delim(s[k]),
        j == s.len() || is_delim(s[j]),
    ensures
        scan_unquoted(s, i) == j,
    decreases j - i,
{
    if i < j {
        lemma_scan_stops(s, i + 1, j);
    }
}

/// Decoding a quoted field recovers exactly the field that was escaped,
/// provided the text after the closing quote does not begin with a
/// quote.
proof fn lemma_parse_quoted_of_escape(s: Seq<char>, i: int, f: Seq<char>)
    requires
        0 <= i,
        i + escape_quotes(f).len() + 1 <= s.len(),
        s.subrange(i, i + escape_quotes(f).len() + 1) == escape_quotes(f) + seq!['"'],
        i + escape_quotes(f).len() + 1 == s.len() || s[i + escape_quotes(f).len() + 1] != '"',
    ensures
        parse_quoted(s, i) == Some((f, i + escape_quotes(f).len() + 1)),
    decreases f.len(),
{
    let e = escape_quotes(f);
    let sub = s.subrange(i, i + e.len() + 1);
    if f.len() == 0 {
        assert(s[i] == sub[0]);
        assert(sub[0] == (e + seq!['"'])[0]);
        assert(parse_quoted(s, i) == Some((Seq::<char>::empty(), i + 1)));
        assert(f =~= Seq::<char>::empty());
    } else {
        let c = f[0];
        let ftail = f.drop_first();
        let etail = escape_quotes(ftail);
        assert(e == esc_char(c) + etail);
        if c == '"' {
            assert(e =~= seq!['"', '"'] + etail);
            assert(s[i] == sub[0] && sub[0] == (e + seq!['"'])[0]);
            assert(s[i + 1] == sub[1] && sub[1] == (e + seq!['"'])[1]);
            assert(s[i] == '"' && s[i + 1] == '"');
            assert(s.subrange(i + 2, i + 2 + etail.len() + 1) =~= etail + seq!['"']) by {
                assert forall|k: int| 0 <= k < etail.len() + 1 implies s.subrange(
                    i + 2,
                    i + 2 + etail.len() + 1,
                )[k] == (etail + seq!['"'])[k] by {
                    assert(s.subrange(i + 2, i + 2 + etail.len() + 1)[k] == s[i + 2 + k]);
                    assert(s[i + 2 + k] == sub[2 + k]);
                    assert(sub[2 + k] == (e + seq!['"'])[2 + k]);
                }
            }
            lemma_parse_quoted_of_escape(s, i + 2, ftail);
            assert(seq!['"'] + ftail =~= f);
        } else {
            assert(e =~= seq![c] + etail);
            assert(s[i] == sub[0] && sub[0] == (e + seq!['"'])[0]);
            assert(s[i] == c);
            assert(s.subrange(i + 1, i + 1 + etail.len() + 1) =~= etail + seq!['"']) by {
                assert forall|k: int| 0 <= k < etail.len() + 1 implies s.subrange(
                    i + 1,
                    i + 1 + etail.len() + 1,
                )[k] == (etail + seq!['"'])[k] by {
                    assert(s.subrange(i + 1, i + 1 + etail.len() + 1)[k] == s[i + 1 + k]);
                    assert(s[i + 1 + k] == sub[1 + k]);
                    assert(sub[1 + k] == (e + seq!['"'])[1 + k]);
                }
            }
            lemma_parse_quoted_of_escape(s, i + 1, ftail);
            assert(seq![s[i]] + ftail =~= f);
        }
    }
}

/// Decoding a field recovers exactly the field that was encoded,
/// provided a separator (or the end of the text) follows it.
proof fn lemma_parse_field_of_encode(s: Seq<char>, i: int, f: Seq<char>)
    requires
        0 <= i,
        i + encode_field(f).len() <= s.len(),
        s.subrange(i, i + encode_field(f).len()) == encode_field(f),
        i + encode_field(f).len() == s.len() || is_delim(s[i + encode_field(f).len()]),
    ensures
        parse_field(s, i) == Some((f, i + encode_field(f).len())),
{
    let enc = encode_field(f);
    let sub = s.subrange(i, i + enc.len());
    if needs_quoting(f) {
        let e = escape_quotes(f);
        assert(enc =~= seq!['"'] + (e + seq!['"']));
        assert(s[i] == sub[0] && sub[0] == '"');
        assert(s.subrange(i + 1, i + 1 + e.len() + 1) =~= e + seq!['"']) by {
            assert forall|k: int| 0 <= k < e.len() + 1 implies s.subrange(
                i + 1,
                i + 1 + e.len() + 1,
            )[k] == (e + seq!['"'])[k] by {
                assert(s.subrange(i + 1, i + 1 + e.len() + 1)[k] == s[i + 1 + k]);
                assert(s[i + 1 + k] == sub[1 + k]);
                assert(sub[1 + k] == enc[1 + k]);
            }
        }
        lemma_parse_quoted_of_escape(s, i + 1, f);
    } else {
        assert(forall|k: int|
            0 <= k < f.len() ==> !(f[k] == ',' || f[k] == '"' || f[k] == '\n' || f[k] == '\r'));
        assert(forall|k: int| i <= k < i + f.len() ==> s[k] == sub[k - i] && sub[k - i] == f[k - i]);
        if f.len() == 0 {
            lemma_scan_stops(s, i, i);
            assert(s.subrange(i, i) =~= f);
        } else {
            assert(s[i] == f[0]);
            lemma_scan_stops(s, i, i + f.len());
            assert(s.subrange(i, i + f.len()) == f);
        }
    }
}

/// Decoding a row recovers exactly the two fields that were encoded.
proof fn lemma_parse_row_of_encode(s: Seq<char>, i: int, a: Seq<char>, b: Seq<char>)
    requires
        0 <= i,
        i + encode_row(a, b).len() <= s.len(),
        s.subrange(i, i + encode_row(a, b).len()) == encode_row(a, b),
    ensures
        parse_row(s, i) == Some((seq![a, b], i + encode_row(a, b).len())),
{
    let ea = encode_field(a);
    let eb = encode_field(b);
    let row = encode_row(a, b);
    let sub = s.subrange(i, i + row.len());
    assert(row =~= ea + seq![','] + eb + seq!['\n']);
    assert(forall|k: int| 0 <= k < row.len() ==> s[i + k] == sub[k] && sub[k] == row[k]);
    assert(s.subrange(i, i + ea.len()) =~= ea) by {
        assert(forall|k: int| 0 <= k < ea.len() ==> #[trigger] s.subrange(i, i + ea.len())[k] == s[i + k]);
    }
    assert((ea + seq![','])[ea.len() as int] == ',');
    assert(((ea + seq![',']) + eb)[ea.len() as int] == ',');
    assert(row[ea.len() as int] == ',');
    assert(s[i + ea.len()] == ',');
    lemma_parse_field_of_encode(s, i, a);
    let j = i + ea.len();
    assert(s.subrange(j + 1, j + 1 + eb.len()) =~= eb) by {
        assert(forall|k: int|
            0 <= k < eb.len() ==> #[trigger] s.subrange(j + 1, j + 1 + eb.len())[k] == s[j + 1 + k]);
        assert(forall|k: int| 0 <= k < eb.len() ==> row[ea.len() + 1 + k] == eb[k]);
    }
    assert(((ea + seq![',']) + eb).len() == ea.len() + 1 + eb.len());
    assert(row[ea.len() + 1 + eb.len() as int] == '\n');
    assert(s[j + 1 + eb.len()] == '\n');
    lemma_parse_field_of_encode(s, j + 1, b);
    let j2 = j + 1 + eb.len();
    assert(parse_row(s, j + 1) == Some((seq![b], j2 + 1)));
    assert(seq![a] + seq![b] =~= seq![a, b]);
    assert(j2 + 1 == i + row.len());
}

/// Decoding a sequence of encoded rows recovers exactly the pairs that
/// were encoded.
proof fn lemma_parse_rows_of_encode(
    s: Seq<char>,
    i: int,
    pairs: Seq<(Seq<char>, Seq<char>)>,
    row: int,
)
    requires
        0 <= i <= s.len(),
        i + encode_rows(pairs).len() == s.len(),
        s.subrange(i, s.len() as int) == encode_rows(pairs),
    ensures
        parse_rows(s, i, row) == Ok::<_, int>(pairs),
    decreases pairs.len(),
{
    if pairs.len() == 0 {
        assert(pairs =~= Seq::<(Seq<char>, Seq<char>)>::empty());
    } else {
        let p0 = pairs[0];
        let a = p0.0;
        let b = p0.1;
        let tail = pairs.drop_first();
        let er = encode_row(a, b);
        let rest = encode_rows(tail);
        assert(encode_rows(pairs) == er + rest);
        let sub = s.subrange(i, s.len() as int);
        assert(forall|k: int| 0 <= k < sub.len() ==> s[i + k] == sub[k]);
        assert(s.subrange(i, i + er.len()) =~= er) by {
            assert(forall|k: int| 0 <= k < er.len() ==> #[trigger] s.subrange(i, i + er.len())[k] == s[i + k]);
        }
        lemma_parse_row_of_encode(s, i, a, b);
        let k = i + er.len();
        assert(s.subrange(k, s.len() as int) =~= rest) by {
            assert(forall|m: int|
                0 <= m < rest.len() ==> #[trigger] s.subrange(k, s.len() as int)[m] == s[k + m]);
            assert(forall|m: int| 0 <= m < rest.len() ==> sub[er.len() + m] == rest[m]);
        }
        lemma_parse_rows_of_encode(s, k, tail, row + 1);
        let fs = seq![a, b];
        assert(fs[0] == a && fs[1] == b);
        assert((a, b) == p0);
        assert(seq![(a, b)] + tail =~= pairs);
    }
}

/// Decides whether a field must be written inside quotes.
fn field_needs_quoting(f: &str) -> (r: bool)
    ensures
        r == needs_quoting(f@),
{
    let n = f.unicode_len();
    let mut i: usize = 0;
    while i < n
        invariant
            0 <= i <= n,
            n == f@.len(),
            forall|k: int|
                0 <= k < i ==> !((#[trigger] f@[k]) == ',' || f@[k] == '"' || f@[k] == '\n'
                    || f@[k] == '\r'),
        decreases n - i,
    {
        let c = f.get_char(i);
        if c == ',' || c == '"' || c == '\n' || c == '\r' {
            proof {
                assert(0 <= i < f@.len() && (f@[i as int] == ',' || f@[i as int] == '"'
                    || f@[i as int] == '\n' || f@[i as int] == '\r'));
            }
            return true;
        }
        i = i + 1;
    }
    false
}

/// Appends a field's content with every quote doubled.
fn append_escaped(out: &mut String, f: &str)
    ensures
        final(out)@ == old(out)@ + escape_quotes(f@),
{
    let n = f.unicode_len();
    let mut i: usize = 0;
    while i < n
        invariant
            0 <= i <= n,
            n == f@.len(),
            out@ == old(out)@ + escape_quotes(f@.take(i as int)),
        decreases n - i,
    {
        let c = f.get_char(i);
        proof {
            assert(f@.take(i as int + 1) =~= f@.take(i as int).push(f@[i as int]));
            lemma_escape_push(f@.take(i as int), f@[i as int]);
        }
        if c == '"' {
            out.push('"');
            out.push('"');
            proof {
                assert(out@ =~= old(out)@ + escape_quotes(f@.take(i as int + 1)));
            }
        } else {
            out.push(c);
            proof {
                assert(out@ =~= old(out)@ + escape_quotes(f@.take(i as int + 1)));
            }
        }
        i = i + 1;
    }
    proof {
        assert(f@.take(n as int) =~= f@);
    }
}

/// Appends the encoding of one field.
fn append_field(out: &mut String, f: &str)
    ensures
        final(out)@ == old(out)@ + encode_field(f@),
{
    if field_needs_quoting(f) {
        out.push('"');
        append_escaped(out, f);
        out.push('"');
        proof {
            assert(out@ =~= old(out)@ + encode_field(f@));
        }
    } else {
        out.append(f);
    }
}

/// The persisted text of a caption table: the header row followed by one
/// row per record holding the image's bare file name and its caption.
pub fn write_caption_table(records: &Vec<CaptionRecord>) -> (r: String)
    ensures
        r@ == encode_table(table_pairs(records@)),
{
    let mut out = String::new();
    append_field(&mut out, "Image");
    out.push(',');
    append_field(&mut out, "Caption");
    out.push('\n');
    proof {
        assert(out@ =~= header_row());
        assert(table_pairs(records@.take(0)) =~= Seq::<(Seq<char>, Seq<char>)>::empty());
        assert(out@ =~= header_row() + encode_rows(table_pairs(records@.take(0))));
    }
    let mut i: usize = 0;
    while i < records.len()
        invariant
            0 <= i <= records@.len(),
            out@ == header_row() + encode_rows(table_pairs(records@.take(i as int))),
        decreases records@.len() - i,
    {
        let name = records[i].get_filename();
        append_field(&mut out, name.as_str());
        out.push(',');
        append_field(&mut out, records[i].caption.as_str());
        out.push('\n');
        proof {
            let pre = table_pairs(records@.take(i as int));
            let p = (filename_of(records@[i as int].image_path@), records@[i as int].caption@);
            assert(records@.take(i as int + 1) =~= records@.take(i as int).push(
                records@[i as int],
            ));
            assert(table_pairs(records@.take(i as int + 1)) =~~= pre.push(p));
            lemma_encode_rows_push(pre, p);
            assert(out@ =~= header_row() + encode_rows(table_pairs(records@.take(i as int + 1))));
        }
        i = i + 1;
    }
    proof {
        assert(records@.take(records@.len() as int) =~= records@);
    }
    out
}

/// Computes the index of the first separator at or after `i`.
fn scan_unquoted_str(s: &str, i: usize) -> (r: usize)
    requires
        i <= s@.len(),
    ensures
        r == scan_unquoted(s@, i as int),
        i <= r <= s@.len(),
    decreases s@.len() - i,
{
    let n = s.unicode_len();
    if i == n {
        i
    } else {
        let c = s.get_char(i);
        if c == ',' || c == '\n' {
            i
        } else {
            scan_unquoted_str(s, i + 1)
        }
    }
}

/// Decodes the remainder of a quoted field.
fn parse_quoted_str(s: &str, i: usize) -> (r: Option<(String, usize)>)
    requires
        i <= s@.len(),
    ensures
        match r {
            Some(p) => parse_quoted(s@, i as int) == Some((p.0@, p.1 as int)) && i < p.1
                <= s@.len(),
            None => parse_quoted(s@, i as int) is None,
        },
    decreases s@.len() - i,
{
    let n = s.unicode_len();
    if i == n {
        return None;
    }
    let c = s.get_char(i);
    if c == '"' {
        if i + 1 < n && s.get_char(i + 1) == '"' {
            match parse_quoted_str(s, i + 2) {
                Some((f, j)) => {
                    let mut t = String::new();
                    t.push('"');
                    t.append(f.as_str());
                    proof {
                        assert(t@ =~= seq!['"'] + f@);
                    }
                    Some((t, j))
                }
                None => None,
            }
        } else {
            Some((String::new(), i + 1))
        }
    } else {
        match parse_quoted_str(s, i + 1) {
            Some((f, j)) => {
                let mut t = String::new();
                t.push(c);
                t.append(f.as_str());
                proof {
                    assert(t@ =~= seq![s@[i as int]] + f@);
                }
                Some((t, j))
            }
            None => None,
        }
    }
}

/// Decodes one field.
fn parse_field_str(s: &str, i: usize) -> (r: Option<(String, usize)>)
    requires
        i <= s@.len(),
    ensures
        match r {
            Some(p) => parse_field(s@, i as int) == Some((p.0@, p.1 as int)) && i <= p.1
                <= s@.len(),
            None => parse_field(s@, i as int) is None,
        },
{
    let n = s.unicode_len();
    if i < n && s.get_char(i) == '"' {
        parse_quoted_str(s, i + 1)
    } else {
        let j = scan_unquoted_str(s, i);
        let f = s.substring_char(i, j);
        Some((f.to_owned(), j))
    }
}

/// Decodes one row.
fn parse_row_str(s: &str, i: usize) -> (r: Option<(Vec<String>, usize)>)
    requires
        i <= s@.len(),
    ensures
        match r {
            Some(p) => parse_row(s@, i as int) == Some((p.0.deep_view(), p.1 as int)) && i <= p.1
                <= s@.len(),
            None => parse_row(s@, i as int) is None,
        },
    decreases s@.len() - i,
{
    let n = s.unicode_len();
    match parse_field_str(s, i) {
        None => None,
        Some((f, j)) => {
            if j == n {
                let mut v: Vec<String> = Vec::new();
                let ghost fv = f@;
                v.push(f);
                proof {
                    assert(v.deep_view() =~~= seq![fv]);
                }
                Some((v, j))
            } else if s.get_char(j) == '\n' {
                let mut v: Vec<String> = Vec::new();
                let ghost fv = f@;
                v.push(f);
                proof {
                    assert(v.deep_view() =~~= seq![fv]);
                }
                Some((v, j + 1))
            } else if s.get_char(j) == ',' {
                match parse_row_str(s, j + 1) {
                    Some((fs, k)) => {
                        let ghost fv = f@;
                        let ghost tail = fs.deep_view();
                        let mut v = fs;
                        v.insert(0, f);
                        proof {
                            assert(v.deep_view() =~~= seq![fv] + tail);
                        }
                        Some((v, k))
                    }
                    None => None,
                }
            } else {
                None
            }
        }
    }
}

/// The `(file name, caption)` views of a sequence of decoded rows.
pub open spec fn pair_views(v: Seq<(String, String)>) -> Seq<(Seq<char>, Seq<char>)> {
    v.map_values(|p: (String, String)| (p.0@, p.1@))
}

/// Decodes the data rows starting at `i`, numbering them from `row`.
fn parse_rows_str(s: &str, i: usize, row: usize) -> (r: Result<Vec<(String, String)>, usize>)
    requires
        i <= s@.len(),
        row <= i,
    ensures
        match r {
            Ok(v) => parse_rows(s@, i as int, row as int) == Ok::<_, int>(pair_views(v@)),
            Err(e) => parse_rows(s@, i as int, row as int) == Err::<Seq<(Seq<char>, Seq<char>)>,
                int,
            >(e as int),
        },
    decreases s@.len() - i,
{
    let n = s.unicode_len();
    if i == n {
        let v: Vec<(String, String)> = Vec::new();
        proof {
            assert(pair_views(v@) =~= Seq::<(Seq<char>, Seq<char>)>::empty());
        }
        Ok(v)
    } else {
        match parse_row_str(s, i) {
            None => Err(row),
            Some((fs, k)) => {
                proof {
                    lemma_parse_row_bounds(s@, i as int);
                }
                if fs.len() < 2 {
                    Err(row)
                } else {
                    match parse_rows_str(s, k, row + 1) {
                        Err(e) => Err(e),
                        Ok(rest) => {
                            let a = fs[0].clone();
                            let b = fs[1].clone();
                            let ghost tail = pair_views(rest@);
                            let ghost pa = a@;
                            let ghost pb = b@;
                            let mut v = rest;
                            v.insert(0, (a, b));
                            proof {
                                assert(fs.deep_view()[0] == pa && fs.deep_view()[1] == pb);
                                assert(pair_views(v@) =~~= seq![(pa, pb)] + tail);
                            }
                            Ok(v)
                        }
                    }
                }
            }
        }
    }
}

/// Decodes persisted caption-table text. Each row's file name is
/// resolved against the directory the table lives in; a malformed row is
/// reported by its number, the header being row zero.
pub fn read_caption_table(text: &str, dir: &str) -> (r: Result<Vec<CaptionRecord>, CaptionError>)
    ensures
        match r {
            Ok(recs) => {
                &&& parse_table(text@) matches Ok(pairs)
                &&& recs@.len() == pairs.len()
                &&& forall|k: int|
                    0 <= k < recs@.len() ==> (#[trigger] recs@[k]).image_path@ == join_path(
                        dir@,
                        pairs[k].0,
                    ) && recs@[k].caption@ == pairs[k].1
            },
            Err(e) => {
                &&& e matches CaptionError::Format { row }
                &&& parse_table(text@) == Err::<Seq<(Seq<char>, Seq<char>)>, int>(row as int)
            },
        },
{
    let n = text.unicode_len();
    if n == 0 {
        return Ok(Vec::new());
    }
    match parse_row_str(text, 0) {
        None => Err(CaptionError::Format { row: 0 }),
        Some((_, k)) => {
            proof {
                lemma_parse_row_bounds(text@, 0);
            }
            match parse_rows_str(text, k, 1) {
                Err(e) => Err(CaptionError::Format { row: e }),
                Ok(pairs) => {
                    let ghost pv = pair_views(pairs@);
                    let mut records: Vec<CaptionRecord> = Vec::new();
                    let mut m: usize = 0;
                    while m < pairs.len()
                        invariant
                            0 <= m <= pairs@.len(),
                            pv == pair_views(pairs@),
                            records@.len() == m,
                            forall|q: int|
                                0 <= q < m ==> (#[trigger] records@[q]).image_path@ == join_path(
                                    dir@,
                                    pv[q].0,
                                ) && records@[q].caption@ == pv[q].1,
                        decreases pairs@.len() - m,
                    {
                        let path = join_path_str(dir, pairs[m].0.as_str());
                        records.push(CaptionRecord::new(&path, pairs[m].1.clone()));
                        m = m + 1;
                    }
                    Ok(records)
                }
            }
        }
    }
}

/// The round-trip law: decoding an encoded caption table yields exactly
/// the `(file name, caption)` pairs that were written, whatever
/// characters the names and captions hold.
pub proof fn lemma_table_round_trip(pairs: Seq<(Seq<char>, Seq<char>)>)
    ensures
        parse_table(encode_table(pairs)) == Ok::<_, int>(pairs),
{
    let s = encode_table(pairs);
    let hdr = header_row();
    assert(s == hdr + encode_rows(pairs));
    assert(s.len() > 0);
    assert(s.subrange(0, hdr.len() as int) =~= hdr) by {
        assert(forall|k: int| 0 <= k < hdr.len() ==> #[trigger] s.subrange(0, hdr.len() as int)[k] == s[k]);
    }
    lemma_parse_row_of_encode(s, 0, "Image"@, "Caption"@);
    assert(s.subrange(hdr.len() as int, s.len() as int) =~= encode_rows(pairs)) by {
        assert(forall|k: int|
            0 <= k < encode_rows(pairs).len() ==> #[trigger] s.subrange(hdr.len() as int, s.len() as int)[k]
                == s[hdr.len() + k]);
    }
    lemma_parse_rows_of_encode(s, hdr.len() as int, pairs, 1);
}

} // verus!
