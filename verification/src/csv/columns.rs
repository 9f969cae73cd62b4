//! Picking the columns of a CSV file by the names in its header, and
//! writing the picked fields of a record.
use vstd::prelude::*;

use super::grammar::{contents_eq_defined, contents_eq_spec, encoded, FieldModel, COMMA, NEWLINE};
use super::laws::join_encoded;
use super::read::{fields_view, Field};

verus! {

broadcast use vstd::seq_lib::group_seq_properties;

/// Each header field before index `end` can be compared with `name` and is
/// not named `name`.
pub open spec fn no_match_before(header: Seq<FieldModel>, name: Seq<u8>, end: int) -> bool {
    forall|j: int|
        0 <= j < end ==> contents_eq_defined(#[trigger] header[j], name) && !contents_eq_spec(
            header[j],
            name,
        )
}

/// Finds the column named `name`: the first header field that compares
/// equal to it (as `Field::contents_eq` compares). `Ok(None)` when none
/// does; `Err(j)` when field `j`, before any field matched, cannot be
/// compared with `name` (a quoted field that reaches past its end).
pub fn find_column(header: &[Field], name: &[u8]) -> (res: Result<Option<usize>, usize>)
    ensures
        match res {
            Ok(Some(i)) => i < header@.len() && no_match_before(
                fields_view(header@),
                name@,
                i as int,
            ) && contents_eq_defined(header@[i as int]@, name@) && contents_eq_spec(
                header@[i as int]@,
                name@,
            ),
            Ok(None) => no_match_before(fields_view(header@), name@, header@.len() as int),
            Err(j) => j < header@.len() && no_match_before(fields_view(header@), name@, j as int)
                && !contents_eq_defined(header@[j as int]@, name@),
        },
{
    let mut i: usize = 0;
    while i < header.len()
        invariant
            i <= header@.len(),
            no_match_before(fields_view(header@), name@, i as int),
        decreases header@.len() - i,
    {
        let f = &header[i];
        if !f.contents_eq_in_bounds(name) {
            return Err(i);
        }
        if f.contents_eq(name) {
            return Ok(Some(i));
        }
        assert(fields_view(header@)[i as int] == header@[i as int]@);
        i = i + 1;
    }
    Ok(None)
}

/// The fields of `fields` at the indices `idx`, in that order.
pub open spec fn picked(fields: Seq<FieldModel>, idx: Seq<usize>) -> Seq<FieldModel> {
    idx.map_values(|i: usize| fields[i as int])
}

proof fn lemma_join_encoded_push(fs: Seq<FieldModel>, f: FieldModel)
    ensures
        join_encoded(fs.push(f)) == if fs.len() == 0 {
            encoded(f)
        } else {
            join_encoded(fs) + seq![COMMA] + encoded(f)
        },
    decreases fs.len(),
{
    let g = fs.push(f);
    if fs.len() == 0 {
        assert(g[0] == f);
    } else if fs.len() == 1 {
        let one: Seq<FieldModel> = seq![f];
        assert(g.drop_first() =~= one);
        assert(g[0] == fs[0]);
        assert(join_encoded(one) == encoded(one[0]));
        assert(join_encoded(g) == encoded(g[0]) + seq![COMMA] + join_encoded(g.drop_first()));
        assert(join_encoded(fs) == encoded(fs[0]));
    } else {
        lemma_join_encoded_push(fs.drop_first(), f);
        assert(g.drop_first() =~= fs.drop_first().push(f));
        assert(g[0] == fs[0]);
        assert(join_encoded(g) =~= join_encoded(fs) + seq![COMMA] + encoded(f));
    }
}

/// Writes the fields at the indices `idx`, in that order, as a CSV line:
/// each field encoded (as `Field::write_encoded` writes it), a comma
/// between fields, and a line end.
pub fn write_columns(fields: &[Field], idx: &[usize], out: &mut Vec<u8>)
    requires
        forall|k: int| 0 <= k < idx@.len() ==> #[trigger] idx@[k] < fields@.len(),
    ensures
        final(out)@ == old(out)@ + join_encoded(picked(fields_view(fields@), idx@)) + seq![NEWLINE],
{
    let ghost fv = fields_view(fields@);
    let mut k: usize = 0;
    assert(picked(fv, idx@.take(0)) =~= Seq::<FieldModel>::empty());
    assert(old(out)@ + join_encoded(Seq::<FieldModel>::empty()) =~= old(out)@);
    while k < idx.len()
        invariant
            k <= idx@.len(),
            fv == fields_view(fields@),
            forall|j: int| 0 <= j < idx@.len() ==> #[trigger] idx@[j] < fields@.len(),
            out@ == old(out)@ + join_encoded(picked(fv, idx@.take(k as int))),
        decreases idx@.len() - k,
    {
        let ghost before = picked(fv, idx@.take(k as int));
        let i = idx[k];
        if k != 0 {
            out.push(COMMA);
        }
        let _ = fields[i].write_encoded(out);
        proof {
            assert(fv[i as int] == fields@[i as int]@);
            assert(picked(fv, idx@.take(k + 1)) =~= before.push(fv[i as int]));
            lemma_join_encoded_push(before, fv[i as int]);
            assert(out@ =~= old(out)@ + join_encoded(picked(fv, idx@.take(k + 1))));
        }
        k = k + 1;
    }
    assert(idx@.take(k as int) =~= idx@);
    out.push(NEWLINE);
}

} // verus!
