//! How the grammar treats blanks and separators: a field's name and its
//! type may be parted by any run of spaces and tabs, and two fields, like
//! two entries, are parted by a line break, a Windows line break or a
//! semicolon, each with blanks before it and white space after it.
use vstd::prelude::*;
use super::{
    at, blank_end, is_blank, p_entry, p_entry_step, p_field, p_field_key, p_field_step, p_field_type, p_ident, pad_end,
    FieldView,
};

verus! {

/// The characters from `i` up to `j` are spaces or tabs, and the one at `j`,
/// if there is one, is not.
pub open spec fn blank_run(s: Seq<char>, i: int, j: int) -> bool {
    &&& 0 <= i <= j <= s.len()
    &&& forall|m: int| i <= m < j ==> is_blank(#[trigger] s[m])
    &&& j < s.len() ==> !is_blank(s[j])
}

/// A run of blanks ends where the grammar's blanks end.
proof fn lemma_blank_run_end(s: Seq<char>, i: int, j: int)
    requires
        blank_run(s, i, j),
    ensures
        blank_end(s, i) == j,
    decreases j - i,
{
    if i < j {
        lemma_blank_run_end(s, i + 1, j);
    }
}

/// A field's name and its type are parted by any run of one or more spaces
/// and tabs, however long: when the name at `i` ends at `j` and blanks run
/// from `j` to `k`, the field at `i` is read exactly when a type stands at
/// `k`, and then it has that name and that type.
pub proof fn lemma_field_after_blanks(s: Seq<char>, i: int, j: int, k: int)
    requires
        p_ident(s, i) is Some,
        p_ident(s, i).unwrap().1 == j,
        j < k,
        blank_run(s, j, k),
    ensures
        p_field(s, i) is Some <==> p_field_type(s, k) is Some,
        p_field(s, i) is Some ==> p_field(s, i).unwrap().0.name == p_ident(s, i).unwrap().0
            && p_field(s, i).unwrap().0.field_type == p_field_type(s, k).unwrap().0,
{
    lemma_blank_run_end(s, j, k);
}

/// A whole field, with blanks of any length: the name at `i`, ending at
/// `j`; blanks up to `k`; the type at `k`, ending at `l`; blanks up to `q`;
/// and, if one stands at `q`, the key. The field read at `i` is made of
/// them, and ends after the key, or after the type when no key follows.
pub proof fn lemma_field_reads(s: Seq<char>, i: int, j: int, k: int, l: int, q: int)
    requires
        p_ident(s, i) is Some,
        p_ident(s, i).unwrap().1 == j,
        j < k,
        blank_run(s, j, k),
        p_field_type(s, k) is Some,
        p_field_type(s, k).unwrap().1 == l,
        blank_run(s, l, q),
    ensures
        p_field(s, i) == Some(
            match p_field_key(s, q) {
                Some((key, e)) => (
                    FieldView {
                        name: p_ident(s, i).unwrap().0,
                        field_type: p_field_type(s, k).unwrap().0,
                        field_key: Some(key),
                    },
                    e,
                ),
                None => (
                    FieldView {
                        name: p_ident(s, i).unwrap().0,
                        field_type: p_field_type(s, k).unwrap().0,
                        field_key: None,
                    },
                    l,
                ),
            },
        ),
{
    lemma_blank_run_end(s, j, k);
    lemma_blank_run_end(s, l, q);
}

/// The separators between two fields: after the blanks that end at `b`, a
/// line break, a Windows line break or a semicolon, then any white space,
/// and the next field is read there; with none of them there is no next
/// field.
pub proof fn lemma_field_separators(s: Seq<char>, j: int, b: int)
    requires
        blank_run(s, j, b),
    ensures
        at(s, b, seq!['\n']) ==> p_field_step(s, j) == p_field(s, pad_end(s, b + 1)),
        at(s, b, seq!['\r', '\n']) ==> p_field_step(s, j) == p_field(s, pad_end(s, b + 2)),
        at(s, b, seq![';']) ==> p_field_step(s, j) == p_field(s, pad_end(s, b + 1)),
        !at(s, b, seq!['\n']) && !at(s, b, seq!['\r', '\n']) && !at(s, b, seq![';']) ==> p_field_step(s, j) is None,
{
    lemma_blank_run_end(s, j, b);
}

/// The separators between two entries are the same three, with the same
/// blanks before and white space after them.
pub proof fn lemma_entry_separators(s: Seq<char>, j: int, b: int)
    requires
        blank_run(s, j, b),
    ensures
        at(s, b, seq!['\n']) ==> p_entry_step(s, j) == p_entry(s, pad_end(s, b + 1)),
        at(s, b, seq!['\r', '\n']) ==> p_entry_step(s, j) == p_entry(s, pad_end(s, b + 2)),
        at(s, b, seq![';']) ==> p_entry_step(s, j) == p_entry(s, pad_end(s, b + 1)),
        !at(s, b, seq!['\n']) && !at(s, b, seq!['\r', '\n']) && !at(s, b, seq![';']) ==> p_entry_step(s, j) is None,
{
    lemma_blank_run_end(s, j, b);
}

} // verus!
