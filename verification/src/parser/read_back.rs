//! What is written can be read back: the text that `to_string` gives of a
//! definition, or of an unnamed module of definitions, parses to the value
//! it was written from.
use vstd::prelude::*;
use crate::erd::{EntityFieldKey, EntityFieldType};
use super::{
    at, blank_end, entries_rest, entry_lines, field_list_text, fields_rest, ident_tail_end,
    is_ident_continue, is_ident_start, is_white_space, p_definition, p_entries, p_entry,
    p_entry_step, p_field, p_field_key, p_field_step, p_field_type, p_ident, p_program, p_sep,
    pad_end, DefinitionView, EntryView, FieldView, ModuleView,
};

verus! {

/// A run of identifier characters that starts like an identifier.
pub open spec fn is_identifier(w: Seq<char>) -> bool {
    &&& w.len() > 0
    &&& is_ident_start(w[0])
    &&& forall|k: int| 1 <= k < w.len() ==> is_ident_continue(#[trigger] w[k])
}

proof fn lemma_at_index(s: Seq<char>, i: int, t: Seq<char>, k: int)
    requires
        at(s, i, t),
        0 <= k < t.len(),
    ensures
        s[i + k] == t[k],
{
    assert(s.subrange(i, i + t.len())[k] == s[i + k]);
}

proof fn lemma_at_split(s: Seq<char>, i: int, a: Seq<char>, b: Seq<char>)
    requires
        at(s, i, a + b),
    ensures
        at(s, i, a),
        at(s, i + a.len(), b),
{
    let n = a.len() + b.len();
    assert forall|k: int| 0 <= k < a.len() implies #[trigger] s.subrange(i, i + a.len())[k] == a[k] by {
        assert(s.subrange(i, i + n)[k] == (a + b)[k]);
    }
    assert(s.subrange(i, i + a.len()) =~= a);
    assert forall|k: int| 0 <= k < b.len() implies #[trigger] s.subrange(i + a.len(), i + n)[k] == b[k] by {
        assert(s.subrange(i, i + n)[a.len() + k] == (a + b)[a.len() + k]);
    }
    assert(s.subrange(i + a.len(), i + a.len() + b.len()) =~= b);
}

/// One character stands at `i` exactly when it is `c`.
proof fn lemma_at_char(s: Seq<char>, i: int, c: char)
    requires
        0 <= i < s.len(),
    ensures
        at(s, i, seq![c]) <==> s[i] == c,
{
    if s[i] == c {
        assert(s.subrange(i, i + 1) =~= seq![c]);
    }
    if at(s, i, seq![c]) {
        lemma_at_index(s, i, seq![c], 0);
    }
}

/// The separator that stands at a `;` or at a line feed.
proof fn lemma_sep_at(s: Seq<char>, i: int)
    requires
        0 <= i < s.len(),
        s[i] == ';' || s[i] == '\n',
    ensures
        p_sep(s, i) == Some(i + 1),
{
    lemma_at_char(s, i, '\n');
    lemma_at_char(s, i, ';');
    if at(s, i, seq!['\r', '\n']) {
        lemma_at_index(s, i, seq!['\r', '\n'], 0);
    }
}

/// No separator stands at a `}`.
proof fn lemma_no_sep_at_brace(s: Seq<char>, i: int)
    requires
        0 <= i < s.len(),
        s[i] == '}',
    ensures
        p_sep(s, i) is None,
{
    lemma_at_char(s, i, '\n');
    lemma_at_char(s, i, ';');
    if at(s, i, seq!['\r', '\n']) {
        lemma_at_index(s, i, seq!['\r', '\n'], 0);
    }
}

proof fn lemma_tail_end(s: Seq<char>, j: int, e: int)
    requires
        0 <= j <= e <= s.len(),
        forall|k: int| j <= k < e ==> is_ident_continue(#[trigger] s[k]),
        e < s.len() ==> !is_ident_continue(s[e]),
    ensures
        ident_tail_end(s, j) == e,
    decreases e - j,
{
    if j < e {
        lemma_tail_end(s, j + 1, e);
    }
}

/// An identifier written at `i` and not followed by an identifier character
/// is read back whole.
proof fn lemma_ident_at(s: Seq<char>, i: int, w: Seq<char>)
    requires
        is_identifier(w),
        at(s, i, w),
        i + w.len() < s.len() ==> !is_ident_continue(s[i + w.len()]),
    ensures
        p_ident(s, i) == Some((w, i + w.len())),
{
    assert forall|k: int| i + 1 <= k < i + w.len() implies is_ident_continue(#[trigger] s[k]) by {
        lemma_at_index(s, i, w, k - i);
    }
    lemma_at_index(s, i, w, 0);
    lemma_tail_end(s, i + 1, i + w.len());
}

proof fn lemma_field_type_at(s: Seq<char>, i: int, t: EntityFieldType)
    requires
        at(s, i, t.spec_text()),
        i + t.spec_text().len() < s.len() ==> !is_ident_continue(s[i + t.spec_text().len()]),
    ensures
        p_field_type(s, i) == Some((t, i + t.spec_text().len())),
{
    let w = t.spec_text();
    assert(is_identifier(w));
    lemma_ident_at(s, i, w);
    let int_text = EntityFieldType::Int.spec_text();
    let uuid_text = EntityFieldType::Uuid.spec_text();
    let text_text = EntityFieldType::Text.spec_text();
    match t {
        EntityFieldType::Uuid => {
            assert(w.len() != int_text.len());
        },
        EntityFieldType::Text => {
            assert(w.len() != int_text.len());
            assert(w[0] != uuid_text[0]);
        },
        EntityFieldType::Timestamp => {
            assert(w.len() != int_text.len());
            assert(w.len() != uuid_text.len());
            assert(w.len() != text_text.len());
        },
        EntityFieldType::Int => {},
    }
}

proof fn lemma_field_key_at(s: Seq<char>, i: int, k: EntityFieldKey)
    requires
        at(s, i, k.spec_keyword()),
        i + 2 < s.len() ==> !is_ident_continue(s[i + 2]),
    ensures
        p_field_key(s, i) == Some((k, i + 2)),
{
    let w = k.spec_keyword();
    assert(is_identifier(w));
    lemma_ident_at(s, i, w);
    if k == EntityFieldKey::ForeginKey {
        assert(w[0] != EntityFieldKey::PrimaryKey.spec_keyword()[0]);
    }
}

/// What may follow a field inside a definition: `;`, or ` }`.
pub open spec fn follows_field(s: Seq<char>, e: int) -> bool {
    &&& 0 <= e < s.len()
    &&& (s[e] == ';' || (s[e] == ' ' && e + 1 < s.len() && s[e + 1] == '}'))
}

/// A field written at `i` is read back.
proof fn lemma_field_at(s: Seq<char>, i: int, f: FieldView)
    requires
        is_identifier(f.name),
        at(s, i, f.text()),
        follows_field(s, i + f.text().len()),
    ensures
        p_field(s, i) == Some((f, i + f.text().len())),
{
    let n = f.name.len();
    let tt = f.field_type.spec_text();
    let key_part = match f.field_key {
        Some(k) => seq![' '] + k.spec_keyword(),
        None => Seq::<char>::empty(),
    };
    let e = i + f.text().len();
    assert(f.text() == f.name + seq![' '] + tt + key_part);
    lemma_at_split(s, i, f.name + seq![' '] + tt, key_part);
    lemma_at_split(s, i, f.name + seq![' '], tt);
    lemma_at_split(s, i, f.name, seq![' ']);
    lemma_at_index(s, i + n, seq![' '], 0);
    lemma_ident_at(s, i, f.name);
    lemma_at_index(s, i + n + 1, tt, 0);
    assert(blank_end(s, i + n + 1) == i + n + 1);
    assert(blank_end(s, i + n) == i + n + 1);
    let et = i + n + 1 + tt.len();
    match f.field_key {
        Some(k) => {
            let kw = k.spec_keyword();
            lemma_at_split(s, et, seq![' '], kw);
            lemma_at_index(s, et, seq![' '], 0);
            lemma_field_type_at(s, i + n + 1, f.field_type);
            lemma_at_index(s, et + 1, kw, 0);
            assert(blank_end(s, et + 1) == et + 1);
            assert(blank_end(s, et) == et + 1);
            lemma_field_key_at(s, et + 1, k);
        },
        None => {
            assert(et == e);
            lemma_field_type_at(s, i + n + 1, f.field_type);
            if s[et] == ';' {
                assert(blank_end(s, et) == et);
            } else {
                assert(blank_end(s, et + 1) == et + 1);
                assert(blank_end(s, et) == et + 1);
            }
        },
    }
}

/// The text of the first `m` fields begins the text of all of them.
proof fn lemma_field_list_prefix(fs: Seq<FieldView>, m: int) -> (z: Seq<char>)
    requires
        1 <= m <= fs.len(),
    ensures
        field_list_text(fs) == field_list_text(fs.take(m)) + z,
    decreases fs.len(),
{
    if m == fs.len() {
        assert(fs.take(m) =~= fs);
        assert(field_list_text(fs) =~= field_list_text(fs.take(m)) + Seq::<char>::empty());
        Seq::empty()
    } else {
        let z0 = lemma_field_list_prefix(fs.drop_last(), m);
        assert(fs.drop_last().take(m) =~= fs.take(m));
        let z = z0 + seq![';', ' '] + fs.last().text();
        assert(field_list_text(fs) =~= field_list_text(fs.take(m)) + z);
        z
    }
}

proof fn lemma_field_list_step(fs: Seq<FieldView>, m: int)
    requires
        1 <= m < fs.len(),
    ensures
        field_list_text(fs.take(m + 1)) == field_list_text(fs.take(m)) + seq![';', ' '] + fs[m].text(),
{
    assert(fs.take(m + 1).drop_last() =~= fs.take(m));
    assert(fs.take(m + 1).last() == fs[m]);
}

proof fn lemma_fields_rest_at(s: Seq<char>, i: int, fs: Seq<FieldView>, m: int)
    requires
        forall|k: int| 0 <= k < fs.len() ==> is_identifier(#[trigger] fs[k].name),
        at(s, i, field_list_text(fs) + seq![' ', '}']),
        1 <= m <= fs.len(),
    ensures
        fields_rest(s, i + field_list_text(fs.take(m)).len(), fs.take(m)) == (fs, i + field_list_text(
            fs,
        ).len()),
    decreases fs.len() - m,
{
    let j = i + field_list_text(fs.take(m)).len();
    lemma_at_split(s, i, field_list_text(fs), seq![' ', '}']);
    let end = i + field_list_text(fs).len();
    if m < fs.len() {
        let z = lemma_field_list_prefix(fs, m + 1);
        lemma_field_list_step(fs, m);
        let t = fs[m].text();
        assert(field_list_text(fs) == field_list_text(fs.take(m)) + (seq![';', ' '] + t + z));
        lemma_at_split(s, i, field_list_text(fs.take(m)), seq![';', ' '] + t + z);
        lemma_at_split(s, j, seq![';', ' '] + t, z);
        lemma_at_split(s, j, seq![';', ' '], t);
        lemma_at_index(s, j, seq![';', ' '], 0);
        lemma_at_index(s, j, seq![';', ' '], 1);
        lemma_at_index(s, j + 2, t, 0);
        let e = j + 2 + t.len();
        if m + 1 < fs.len() {
            let z2 = lemma_field_list_prefix(fs, m + 2);
            lemma_field_list_step(fs, m + 1);
            assert(field_list_text(fs) == field_list_text(fs.take(m + 1)) + (seq![';', ' '] + fs[m + 1].text() + z2));
            lemma_at_split(s, i, field_list_text(fs.take(m + 1)), seq![';', ' '] + fs[m + 1].text() + z2);
            lemma_at_index(s, e, seq![';', ' '] + fs[m + 1].text() + z2, 0);
        } else {
            assert(fs.take(m + 1) =~= fs);
            lemma_at_index(s, end, seq![' ', '}'], 0);
            lemma_at_index(s, end, seq![' ', '}'], 1);
        }
        lemma_field_at(s, j + 2, fs[m]);
        assert(blank_end(s, j) == j);
        lemma_sep_at(s, j);
        assert(pad_end(s, j + 2) == j + 2);
        assert(pad_end(s, j + 1) == j + 2);
        assert(p_field_step(s, j) == Some((fs[m], e)));
        assert(fs.take(m).push(fs[m]) =~= fs.take(m + 1));
        lemma_fields_rest_at(s, i, fs, m + 1);
    } else {
        assert(fs.take(m) =~= fs);
        lemma_at_index(s, end, seq![' ', '}'], 0);
        lemma_at_index(s, end, seq![' ', '}'], 1);
        assert(blank_end(s, end + 1) == end + 1);
        assert(blank_end(s, end) == end + 1);
        lemma_no_sep_at_brace(s, end + 1);
    }
}

impl DefinitionView {
    /// The name of the entity and of every field is an identifier.
    pub open spec fn well_named(self) -> bool {
        &&& is_identifier(self.name)
        &&& forall|k: int| 0 <= k < self.fields.len() ==> is_identifier(#[trigger] self.fields[k].name)
    }
}

/// A definition written at `i` is read back, whatever follows it.
pub proof fn lemma_definition_at(s: Seq<char>, i: int, d: DefinitionView)
    requires
        d.well_named(),
        at(s, i, d.text()),
    ensures
        p_definition(s, i) == Some((d, i + d.text().len())),
{
    let n = d.name.len();
    let body = if d.fields.len() > 0 {
        seq![' '] + field_list_text(d.fields) + seq![' ']
    } else {
        Seq::<char>::empty()
    };
    assert(d.text() == d.name + seq![' ', '{'] + body + seq!['}']);
    lemma_at_split(s, i, d.name + seq![' ', '{'] + body, seq!['}']);
    lemma_at_split(s, i, d.name + seq![' ', '{'], body);
    lemma_at_split(s, i, d.name, seq![' ', '{']);
    lemma_at_index(s, i + n, seq![' ', '{'], 0);
    lemma_at_index(s, i + n, seq![' ', '{'], 1);
    lemma_ident_at(s, i, d.name);
    assert(pad_end(s, i + n + 1) == i + n + 1);
    assert(pad_end(s, i + n) == i + n + 1);
    lemma_at_char(s, i + n + 1, '{');
    let b = i + n + 2;
    let close = b + body.len();
    lemma_at_index(s, close, seq!['}'], 0);
    lemma_at_char(s, close, '}');
    if d.fields.len() > 0 {
        let list = field_list_text(d.fields);
        lemma_at_split(s, b, seq![' '] + list, seq![' ']);
        lemma_at_split(s, b, seq![' '], list);
        lemma_at_index(s, b, seq![' '], 0);
        let f0 = d.fields[0];
        let z = lemma_field_list_prefix(d.fields, 1);
        assert(d.fields.take(1) =~= seq![f0]);
        assert(field_list_text(seq![f0]) == f0.text());
        lemma_at_split(s, b + 1, f0.text(), z);
        lemma_at_index(s, b + 1, f0.text(), 0);
        assert(pad_end(s, b + 1) == b + 1);
        assert(pad_end(s, b) == b + 1);
        // the fields and the ` }` after them
        assert(s.subrange(b + 1 + list.len(), b + 1 + list.len() + 2) =~= seq![' ', '}']) by {
            lemma_at_index(s, b + 1 + list.len(), seq![' '], 0);
        }
        assert(at(s, b + 1, list + seq![' ', '}'])) by {
            assert(s.subrange(b + 1, b + 1 + list.len() + 2) =~= list + seq![' ', '}']) by {
                assert forall|k: int| 0 <= k < list.len() + 2 implies #[trigger] s.subrange(
                    b + 1,
                    b + 1 + list.len() + 2,
                )[k] == (list + seq![' ', '}'])[k] by {
                    if k < list.len() {
                        lemma_at_index(s, b + 1, list, k);
                    } else {
                        assert(s.subrange(b + 1 + list.len(), b + 1 + list.len() + 2)[k - list.len()]
                            == seq![' ', '}'][k - list.len()]);
                    }
                }
            }
        }
        let e0 = b + 1 + f0.text().len();
        if d.fields.len() > 1 {
            let z2 = lemma_field_list_prefix(d.fields, 2);
            lemma_field_list_step(d.fields, 1);
            assert(list == field_list_text(d.fields.take(1)) + (seq![';', ' '] + d.fields[1].text() + z2));
            lemma_at_split(s, b + 1, field_list_text(d.fields.take(1)), seq![';', ' '] + d.fields[1].text() + z2);
            lemma_at_index(s, e0, seq![';', ' '] + d.fields[1].text() + z2, 0);
        } else {
            assert(d.fields =~= seq![f0]);
        }
        lemma_field_at(s, b + 1, f0);
        lemma_fields_rest_at(s, b + 1, d.fields, 1);
        let lend = b + 1 + list.len();
        assert(pad_end(s, lend + 1) == lend + 1);
        assert(pad_end(s, lend) == lend + 1);
        assert(close == lend + 1);
    } else {
        assert(body.len() == 0);
        assert(pad_end(s, b) == b);
        assert(p_ident(s, b) is None);
        assert(d.fields =~= Seq::<FieldView>::empty());
    }
}

proof fn lemma_entry_lines_prefix(es: Seq<EntryView>, m: int) -> (z: Seq<char>)
    requires
        0 <= m <= es.len(),
    ensures
        entry_lines(es) == entry_lines(es.take(m)) + z,
    decreases es.len(),
{
    if m == es.len() {
        assert(es.take(m) =~= es);
        assert(entry_lines(es) =~= entry_lines(es.take(m)) + Seq::<char>::empty());
        Seq::empty()
    } else {
        let z0 = lemma_entry_lines_prefix(es.drop_last(), m);
        assert(es.drop_last().take(m) =~= es.take(m));
        let z = z0 + seq![' ', ' '] + es.last().text() + seq!['\n'];
        assert(entry_lines(es) =~= entry_lines(es.take(m)) + z);
        z
    }
}

proof fn lemma_entry_lines_step(es: Seq<EntryView>, m: int)
    requires
        0 <= m < es.len(),
    ensures
        entry_lines(es.take(m + 1)) == entry_lines(es.take(m)) + seq![' ', ' '] + es[m].text() + seq!['\n'],
{
    assert(es.take(m + 1).drop_last() =~= es.take(m));
    assert(es.take(m + 1).last() == es[m]);
}

/// An entry that is written so that it reads back: a definition whose
/// names are identifiers.
pub open spec fn reads_back(e: EntryView) -> bool {
    e matches EntryView::Definition(d) && d.well_named()
}

/// Where the entry lines stand at `o`, followed by `}`, the entries after
/// the first `m` are read one by one up to the line feed of the last one.
proof fn lemma_entries_rest_at(s: Seq<char>, o: int, es: Seq<EntryView>, m: int)
    requires
        forall|k: int| 0 <= k < es.len() ==> reads_back(#[trigger] es[k]),
        at(s, o, entry_lines(es) + seq!['}']),
        1 <= m <= es.len(),
    ensures
        entries_rest(s, o + entry_lines(es.take(m)).len() - 1, es.take(m)) == (es, o + entry_lines(
            es,
        ).len() - 1),
    decreases es.len() - m,
{
    let lines = entry_lines(es);
    lemma_at_split(s, o, lines, seq!['}']);
    let head = entry_lines(es.take(m));
    let j = o + head.len() - 1;
    lemma_entry_lines_step(es, m - 1);
    assert(es.take(m).take(m - 1) =~= es.take(m - 1));
    let zh = lemma_entry_lines_prefix(es, m);
    lemma_at_split(s, o, head, zh);
    lemma_at_index(s, o, head, head.len() - 1);
    assert(s[j] == '\n');
    assert(blank_end(s, j) == j);
    lemma_sep_at(s, j);
    if m < es.len() {
        let d = es[m]->Definition_0;
        assert(reads_back(es[m]));
        let t = es[m].text();
        assert(t == d.text());
        let z = lemma_entry_lines_prefix(es, m + 1);
        lemma_entry_lines_step(es, m);
        assert(lines == head + (seq![' ', ' '] + t + seq!['\n'] + z));
        lemma_at_split(s, o, head, seq![' ', ' '] + t + seq!['\n'] + z);
        lemma_at_split(s, j + 1, seq![' ', ' '] + t + seq!['\n'], z);
        lemma_at_split(s, j + 1, seq![' ', ' '] + t, seq!['\n']);
        lemma_at_split(s, j + 1, seq![' ', ' '], t);
        lemma_at_index(s, j + 1, seq![' ', ' '], 0);
        lemma_at_index(s, j + 1, seq![' ', ' '], 1);
        lemma_at_index(s, j + 3, t, 0);
        assert(pad_end(s, j + 3) == j + 3);
        assert(pad_end(s, j + 2) == j + 3);
        assert(pad_end(s, j + 1) == j + 3);
        lemma_definition_at(s, j + 3, d);
        assert(p_entry(s, j + 3) == Some((es[m], j + 3 + t.len())));
        assert(p_entry_step(s, j) == Some((es[m], j + 3 + t.len())));
        assert(es.take(m).push(es[m]) =~= es.take(m + 1));
        lemma_entries_rest_at(s, o, es, m + 1);
    } else {
        assert(es.take(m) =~= es);
        lemma_at_index(s, o + lines.len(), seq!['}'], 0);
        assert(pad_end(s, j + 1) == j + 1);
        assert(p_ident(s, j + 1) is None);
        assert(p_entry(s, j + 1) is None);
    }
}

proof fn lemma_pad_end_again(s: Seq<char>, i: int)
    ensures
        pad_end(s, pad_end(s, i)) == pad_end(s, i),
    decreases s.len() - i,
{
    if 0 <= i < s.len() && is_white_space(s[i]) {
        lemma_pad_end_again(s, i + 1);
    }
}

/// The entry lines written at `o` and followed by `}` are read back, up to
/// the `}`.
proof fn lemma_entries_at(s: Seq<char>, o: int, es: Seq<EntryView>)
    requires
        forall|k: int| 0 <= k < es.len() ==> reads_back(#[trigger] es[k]),
        at(s, o, entry_lines(es) + seq!['}']),
    ensures
        p_entries(s, pad_end(s, o)) == (es, o + entry_lines(es).len()),
{
    let lines = entry_lines(es);
    let close = o + lines.len();
    lemma_at_split(s, o, lines, seq!['}']);
    lemma_at_index(s, close, seq!['}'], 0);
    lemma_pad_end_again(s, o);
    if es.len() > 0 {
        let d = es[0]->Definition_0;
        assert(reads_back(es[0]));
        let t0 = es[0].text();
        let z = lemma_entry_lines_prefix(es, 1);
        lemma_entry_lines_step(es, 0);
        assert(es.take(0) =~= Seq::<EntryView>::empty());
        assert(lines == seq![' ', ' '] + t0 + seq!['\n'] + z);
        lemma_at_split(s, o, seq![' ', ' '] + t0 + seq!['\n'], z);
        lemma_at_split(s, o, seq![' ', ' '] + t0, seq!['\n']);
        lemma_at_split(s, o, seq![' ', ' '], t0);
        lemma_at_index(s, o, seq![' ', ' '], 0);
        lemma_at_index(s, o, seq![' ', ' '], 1);
        lemma_at_index(s, o + 2, t0, 0);
        assert(pad_end(s, o + 2) == o + 2);
        assert(pad_end(s, o + 1) == o + 2);
        assert(pad_end(s, o) == o + 2);
        lemma_definition_at(s, o + 2, d);
        assert(p_entry(s, o + 2) == Some((es[0], o + 2 + t0.len() as int)));
        assert(es.take(1) =~= seq![es[0]]);
        lemma_entries_rest_at(s, o, es, 1);
        lemma_entry_lines_step(es, es.len() - 1);
        assert(es.take(es.len() as int) =~= es);
        lemma_at_index(s, o, lines, lines.len() - 1);
        assert(s[close - 1] == '\n');
        assert(pad_end(s, close) == close);
        assert(pad_end(s, close - 1) == close);
    } else {
        assert(lines.len() == 0);
        assert(pad_end(s, o) == o);
        assert(p_ident(s, o) is None);
        assert(p_entry(s, o) is None);
    }
}

/// A module without a name whose entries are definitions named by
/// identifiers is read back from its own text.
pub proof fn lemma_module_text_reads_back(m: ModuleView)
    requires
        m.name is None,
        forall|k: int| 0 <= k < m.entries.len() ==> reads_back(#[trigger] m.entries[k]),
    ensures
        p_program(m.text()) == Some(m),
{
    let s = m.text();
    let es = m.entries;
    let lines = entry_lines(es);
    let head = seq!['e', 'r', 'd', ' ', '{', '\n'];
    assert(s == head + (lines + seq!['}']));
    assert(s.subrange(0, s.len() as int) =~= s);
    lemma_at_split(s, 0, head, lines + seq!['}']);
    assert(s.subrange(0, 3) =~= seq!['e', 'r', 'd']);
    assert(s[3] == ' ' && s[4] == '{' && s[5] == '\n');
    assert(pad_end(s, 0) == 0);
    assert(pad_end(s, 4) == 4);
    assert(pad_end(s, 3) == 4);
    assert(p_ident(s, 4) is None);
    lemma_at_char(s, 4, '{');
    lemma_entries_at(s, 6, es);
    assert(pad_end(s, 5) == pad_end(s, 6));
    let close = 6 + lines.len() as int;
    lemma_at_split(s, 6, lines, seq!['}']);
    lemma_at_index(s, close, seq!['}'], 0);
    lemma_at_char(s, close, '}');
    assert(s.len() == close + 1);
    assert(pad_end(s, close) == close);
    assert(pad_end(s, close + 1) == close + 1);
}

} // verus!
