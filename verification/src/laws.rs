//! The laws this library states of itself, proved from the specifications
//! in the codec, resource table and bridge modules.

use vstd::prelude::*;

use crate::codec::decode_fields;
use crate::codec::decode_flags;
use crate::codec::decode_list;
use crate::codec::decode_tuple;
use crate::codec::encode_fields;
use crate::codec::encode_flags;
use crate::codec::encode_list;
use crate::codec::encode_tuple;
use crate::codec::err_key;
use crate::codec::find_name;
use crate::codec::lookup_pair;
use crate::codec::ok_key;
use crate::codec::some_key;
use crate::codec::spec_decode;
use crate::codec::spec_encode;
use crate::codec::tag_key;
use crate::codec::value_key;
use crate::codec::wraps_some;
use crate::bridge::spec_drive_step;
use crate::bridge::DriveOutcome;
use crate::bridge::PromiseState;
use crate::errors::ErrorModel;
use crate::resource::spec_drain;
use crate::resource::spec_enqueue;
use crate::resource::spec_lookup;
use crate::resource::spec_register;
use crate::resource::lemma_remove_ids;
use crate::resource::TableModel;
use crate::schema::case_names;
use crate::schema::distinct_names;
use crate::schema::field_names;
use crate::schema::wf_type;
use crate::schema::wf_fields;
use crate::schema::wf_types;
use crate::schema::lemma_wf_cases;
use crate::schema::TypeModel;
use crate::value::conforms;
use crate::value::conforms_fields;
use crate::value::conforms_list;
use crate::value::conforms_tuple;
use crate::value::handles_in;
use crate::value::handles_in_seq;
use crate::value::EncodedModel;
use crate::value::ValueModel;

verus! {

/// The reserved field names of the encoding conventions are pairwise
/// distinct, so no convention can shadow another.
pub proof fn lemma_reserved_keys_distinct()
    ensures
        tag_key() != value_key(),
        tag_key() != some_key(),
        value_key() != some_key(),
        ok_key() != err_key(),
{
    reveal_strlit("tag");
    reveal_strlit("value");
    reveal_strlit("some");
    reveal_strlit("ok");
    reveal_strlit("err");
    assert(tag_key().len() == 3);
    assert(value_key().len() == 5);
    assert(some_key().len() == 4);
    assert(ok_key().len() == 2);
    assert(err_key().len() == 3);
}

/// What `find_name` returns: the index of the first occurrence of the
/// sought name, or nothing exactly when the name does not occur.
pub proof fn lemma_find_name(names: Seq<Seq<char>>, sought: Seq<char>)
    ensures
        match find_name(names, sought) {
            Some(i) => 0 <= i < names.len() && names[i] == sought,
            None => forall|j: int| 0 <= j < names.len() ==> names[j] != sought,
        },
    decreases names.len(),
{
    if names.len() > 0 && names[0] != sought {
        lemma_find_name(names.drop_first(), sought);
        match find_name(names.drop_first(), sought) {
            Some(i) => {
                assert(names.drop_first()[i] == names[i + 1]);
            },
            None => {
                assert forall|j: int| 0 <= j < names.len() implies names[j] != sought by {
                    if j > 0 {
                        assert(names.drop_first()[j - 1] == names[j]);
                    }
                }
            },
        }
    }
}

/// On pairwise distinct names, `find_name` recovers every index.
pub proof fn lemma_find_name_self(names: Seq<Seq<char>>, i: int)
    requires
        distinct_names(names),
        0 <= i < names.len(),
    ensures
        find_name(names, names[i]) == Some(i),
    decreases names.len(),
{
    if i > 0 {
        assert(names[0] != names[i]);
        assert(distinct_names(names.drop_first())) by {
            assert(forall|j: int, k: int|
                0 <= j < k < names.drop_first().len() ==> names.drop_first()[j] == names[j + 1]
                    && names.drop_first()[k] == names[k + 1]);
        }
        lemma_find_name_self(names.drop_first(), i - 1);
        assert(names.drop_first()[i - 1] == names[i]);
    }
}

/// Looking a name up skips a pair carrying a different name.
pub proof fn lemma_lookup_push_miss(
    pairs: Seq<(Seq<char>, EncodedModel)>,
    p: (Seq<char>, EncodedModel),
    name: Seq<char>,
)
    requires
        p.0 != name,
    ensures
        lookup_pair(pairs.push(p), name) == lookup_pair(pairs, name),
    decreases pairs.len(),
{
    if pairs.len() == 0 {
        assert(pairs.push(p)[0] == p);
        assert(pairs.push(p).drop_first() =~= Seq::<(Seq<char>, EncodedModel)>::empty());
    } else {
        assert(pairs.push(p)[0] == pairs[0]);
        if pairs[0].0 != name {
            assert(pairs.push(p).drop_first() =~= pairs.drop_first().push(p));
            lemma_lookup_push_miss(pairs.drop_first(), p, name);
        }
    }
}

/// Looking a name up finds a pair appended under it, provided no earlier
/// pair carries the name.
pub proof fn lemma_lookup_push_hit(
    pairs: Seq<(Seq<char>, EncodedModel)>,
    name: Seq<char>,
    e: EncodedModel,
)
    requires
        forall|i: int| 0 <= i < pairs.len() ==> (#[trigger] pairs[i]).0 != name,
    ensures
        lookup_pair(pairs.push((name, e)), name) == Some(e),
    decreases pairs.len(),
{
    if pairs.len() == 0 {
        assert(pairs.push((name, e))[0] == (name, e));
    } else {
        assert(pairs.push((name, e))[0] == pairs[0]);
        assert(pairs[0].0 != name);
        assert(pairs.push((name, e)).drop_first() =~= pairs.drop_first().push((name, e)));
        assert(forall|i: int|
            0 <= i < pairs.drop_first().len() ==> (#[trigger] pairs.drop_first()[i]) == pairs[i
                + 1]);
        lemma_lookup_push_hit(pairs.drop_first(), name, e);
    }
}

/// What the encoded pairs of a record hold: one pair per field, carrying
/// the declared name and the field value's encoding, in declared order.
pub proof fn lemma_encode_fields_shape(
    fields: Seq<(Seq<char>, TypeModel)>,
    vals: Seq<ValueModel>,
    m: Map<u64, u64>,
)
    requires
        fields.len() == vals.len(),
        encode_fields(fields, vals, m) is Some,
    ensures
        ({
            let pairs = encode_fields(fields, vals, m).unwrap();
            &&& pairs.len() == fields.len()
            &&& forall|i: int|
                0 <= i < fields.len() ==> #[trigger] pairs[i] == (
                    fields[i].0,
                    spec_encode(fields[i].1, vals[i], m).unwrap(),
                )
            &&& forall|i: int|
                0 <= i < fields.len() ==> spec_encode(
                    fields[i].1,
                    #[trigger] vals[i],
                    m,
                ) is Some
        }),
    decreases vals.len(),
{
    if vals.len() > 0 {
        lemma_encode_fields_shape(fields.drop_last(), vals.drop_last(), m);
        assert(forall|i: int|
            0 <= i < fields.len() - 1 ==> fields.drop_last()[i] == #[trigger] fields[i]);
        assert(forall|i: int|
            0 <= i < vals.len() - 1 ==> vals.drop_last()[i] == #[trigger] vals[i]);
    }
}

/// A record decode reads the encoded object only through name lookups: two
/// objects answering every declared field name alike decode alike, whatever
/// order their pairs enumerate in.
pub proof fn lemma_decode_fields_lookup_agree(
    fields: Seq<(Seq<char>, TypeModel)>,
    pairs1: Seq<(Seq<char>, EncodedModel)>,
    pairs2: Seq<(Seq<char>, EncodedModel)>,
    s: TableModel,
)
    requires
        forall|i: int|
            0 <= i < fields.len() ==> lookup_pair(pairs1, (#[trigger] fields[i]).0) == lookup_pair(
                pairs2,
                fields[i].0,
            ),
    ensures
        decode_fields(fields, pairs1, s) == decode_fields(fields, pairs2, s),
    decreases fields.len(),
{
    if fields.len() > 0 {
        assert(forall|i: int|
            0 <= i < fields.len() - 1 ==> fields.drop_last()[i] == #[trigger] fields[i]);
        lemma_decode_fields_lookup_agree(fields.drop_last(), pairs1, pairs2, s);
        assert(fields[fields.len() - 1].0 == fields.last().0);
    }
}

/// Record field order: records decode by declared field name, so an encoded
/// object enumerating its pairs in any order decodes to the same outcome.
pub proof fn lemma_record_field_order(
    fields: Seq<(Seq<char>, TypeModel)>,
    pairs1: Seq<(Seq<char>, EncodedModel)>,
    pairs2: Seq<(Seq<char>, EncodedModel)>,
    s: TableModel,
)
    requires
        forall|i: int|
            0 <= i < fields.len() ==> lookup_pair(pairs1, (#[trigger] fields[i]).0) == lookup_pair(
                pairs2,
                fields[i].0,
            ),
    ensures
        spec_decode(TypeModel::Record(fields), EncodedModel::Object(pairs1), s) == spec_decode(
            TypeModel::Record(fields),
            EncodedModel::Object(pairs2),
            s,
        ),
{
    lemma_decode_fields_lookup_agree(fields, pairs1, pairs2, s);
}

/// Variant tag exhaustiveness: a tagged value whose tag names no declared
/// case fails with `UnknownCase`, never silently selecting a case.
pub proof fn lemma_unknown_case_rejected(
    cases: Seq<(Seq<char>, Option<TypeModel>)>,
    pairs: Seq<(Seq<char>, EncodedModel)>,
    tag: Seq<char>,
    s: TableModel,
)
    requires
        lookup_pair(pairs, tag_key()) == Some(EncodedModel::Text(tag)),
        forall|j: int| 0 <= j < cases.len() ==> (#[trigger] cases[j]).0 != tag,
    ensures
        spec_decode(TypeModel::Variant(cases), EncodedModel::Object(pairs), s) == (
            Err::<ValueModel, ErrorModel>(ErrorModel::UnknownCase(tag)),
            s,
        ),
{
    lemma_find_name(case_names(cases), tag);
    match find_name(case_names(cases), tag) {
        Some(i) => {
            assert(case_names(cases)[i] == cases[i].0);
            assert(false);
        },
        None => {},
    }
}

/// The encoding of a value of non-composite type can never look absent, so
/// the absence marker of optional values stays reserved.
pub proof fn lemma_unwrapped_not_absent(t0: TypeModel, v0: ValueModel, m: Map<u64, u64>)
    requires
        !wraps_some(t0),
        spec_encode(t0, v0, m) is Some,
    ensures
        !(spec_encode(t0, v0, m).unwrap() is Null),
        !(spec_encode(t0, v0, m).unwrap() is Undefined),
{
}

/// Flags round trip, generalized over a prefix of the declared flags and
/// the bits accumulated so far.
proof fn lemma_flags_round_trip(names: Seq<Seq<char>>, bits: Seq<bool>, j: int, acc: Seq<bool>)
    requires
        distinct_names(names),
        bits.len() == names.len(),
        acc.len() == names.len(),
        0 <= j <= names.len(),
        forall|i: int| 0 <= i < j && bits[i] ==> !(#[trigger] acc[i]),
    ensures
        decode_flags(names, encode_flags(names.take(j), bits.take(j)), acc) == Ok::<
            Seq<bool>,
            ErrorModel,
        >(Seq::new(names.len(), |i: int| acc[i] || (i < j && bits[i]))),
    decreases j,
{
    if j == 0 {
        assert(encode_flags(names.take(0), bits.take(0)) =~= Seq::<EncodedModel>::empty());
        assert(Seq::new(names.len(), |i: int| acc[i] || (i < 0 && bits[i])) =~= acc);
    } else {
        lemma_flags_round_trip(names, bits, j - 1, acc);
        let nj = names.take(j);
        let bj = bits.take(j);
        assert(nj.drop_last() =~= names.take(j - 1));
        assert(bj.drop_last() =~= bits.take(j - 1));
        assert(nj.last() == names[j - 1]);
        assert(bj.last() == bits[j - 1]);
        let prev = Seq::new(names.len(), |i: int| acc[i] || (i < j - 1 && bits[i]));
        if bits[j - 1] {
            assert(encode_flags(nj, bj) == encode_flags(names.take(j - 1), bits.take(j - 1)).push(
                EncodedModel::Text(names[j - 1]),
            ));
            let items = encode_flags(nj, bj);
            assert(items.drop_last() =~= encode_flags(names.take(j - 1), bits.take(j - 1)));
            assert(items.last() == EncodedModel::Text(names[j - 1]));
            lemma_find_name_self(names, j - 1);
            assert(!prev[j - 1]);
            assert(prev.update(j - 1, true) =~= Seq::new(
                names.len(),
                |i: int| acc[i] || (i < j && bits[i]),
            ));
        } else {
            assert(encode_flags(nj, bj) == encode_flags(names.take(j - 1), bits.take(j - 1)));
            assert(prev =~= Seq::new(names.len(), |i: int| acc[i] || (i < j && bits[i])));
        }
    }
}

/// Round trip for the ordered fields of a record.
proof fn lemma_round_trip_fields(
    fields: Seq<(Seq<char>, TypeModel)>,
    vals: Seq<ValueModel>,
    m: Map<u64, u64>,
    s: TableModel,
)
    requires
        distinct_names(field_names(fields)),
        wf_fields(fields),
        fields.len() == vals.len(),
        conforms_fields(fields, vals),
        encode_fields(fields, vals, m) is Some,
    ensures
        decode_fields(fields, encode_fields(fields, vals, m).unwrap(), s) == (
            Ok::<Seq<ValueModel>, ErrorModel>(vals),
            s,
        ),
    decreases fields, fields.len(),
{
    if fields.len() > 0 {
        let pairs = encode_fields(fields, vals, m).unwrap();
        let f0 = fields.drop_last();
        let v0 = vals.drop_last();
        let e_last = spec_encode(fields.last().1, vals.last(), m).unwrap();
        let pairs0 = encode_fields(f0, v0, m).unwrap();
        assert(pairs == pairs0.push((fields.last().0, e_last)));
        assert(forall|i: int| 0 <= i < fields.len() - 1 ==> f0[i] == #[trigger] fields[i]);
        assert(forall|i: int|
            0 <= i < field_names(fields).len() ==> #[trigger] field_names(fields)[i] == fields[i].0);
        assert(distinct_names(field_names(f0))) by {
            assert(forall|i: int|
                0 <= i < field_names(f0).len() ==> #[trigger] field_names(f0)[i] == field_names(
                    fields,
                )[i]);
        }
        lemma_round_trip_fields(f0, v0, m, s);
        lemma_encode_fields_shape(f0, v0, m);
        assert forall|i: int| 0 <= i < f0.len() implies lookup_pair(pairs, (#[trigger] f0[i]).0)
            == lookup_pair(pairs0, f0[i].0) by {
            assert(field_names(fields)[i] == fields[i].0);
            assert(field_names(fields)[fields.len() - 1] == fields.last().0);
            assert(fields.last().0 != f0[i].0);
            lemma_lookup_push_miss(pairs0, (fields.last().0, e_last), f0[i].0);
        }
        lemma_decode_fields_lookup_agree(f0, pairs, pairs0, s);
        assert forall|i: int| 0 <= i < pairs0.len() implies (#[trigger] pairs0[i]).0
            != fields.last().0 by {
            assert(pairs0[i].0 == f0[i].0);
            assert(field_names(fields)[i] == fields[i].0);
            assert(field_names(fields)[fields.len() - 1] == fields.last().0);
        }
        lemma_lookup_push_hit(pairs0, fields.last().0, e_last);
        lemma_round_trip(fields.last().1, vals.last(), m, s);
        assert(decode_fields(fields, pairs, s) == (Ok::<Seq<ValueModel>, ErrorModel>(vals), s))
            by {
            assert(v0.push(vals.last()) =~= vals);
        }
    } else {
        assert(encode_fields(fields, vals, m).unwrap() =~= Seq::<
            (Seq<char>, EncodedModel),
        >::empty());
        assert(vals =~= Seq::<ValueModel>::empty());
    }
}

/// The encoded elements of a tuple are one per declared position.
proof fn lemma_encode_tuple_len(tys: Seq<TypeModel>, vals: Seq<ValueModel>, m: Map<u64, u64>)
    requires
        tys.len() == vals.len(),
        encode_tuple(tys, vals, m) is Some,
    ensures
        encode_tuple(tys, vals, m).unwrap().len() == tys.len(),
    decreases vals.len(),
{
    if vals.len() > 0 {
        lemma_encode_tuple_len(tys.drop_last(), vals.drop_last(), m);
    }
}

/// Round trip for the positional elements of a tuple.
proof fn lemma_round_trip_tuple(
    tys: Seq<TypeModel>,
    vals: Seq<ValueModel>,
    m: Map<u64, u64>,
    s: TableModel,
)
    requires
        wf_types(tys),
        tys.len() == vals.len(),
        conforms_tuple(tys, vals),
        encode_tuple(tys, vals, m) is Some,
    ensures
        decode_tuple(tys, encode_tuple(tys, vals, m).unwrap(), s) == (
            Ok::<Seq<ValueModel>, ErrorModel>(vals),
            s,
        ),
    decreases tys, tys.len(),
{
    if tys.len() > 0 {
        let es = encode_tuple(tys, vals, m).unwrap();
        let es0 = encode_tuple(tys.drop_last(), vals.drop_last(), m).unwrap();
        let e_last = spec_encode(tys.last(), vals.last(), m).unwrap();
        assert(es == es0.push(e_last));
        assert(es.drop_last() =~= es0);
        lemma_round_trip_tuple(tys.drop_last(), vals.drop_last(), m, s);
        lemma_round_trip(tys.last(), vals.last(), m, s);
        assert(vals.drop_last().push(vals.last()) =~= vals);
    } else {
        assert(encode_tuple(tys, vals, m).unwrap() =~= Seq::<EncodedModel>::empty());
        assert(vals =~= Seq::<ValueModel>::empty());
    }
}

/// Round trip for the elements of a list.
proof fn lemma_round_trip_list(
    t0: TypeModel,
    vals: Seq<ValueModel>,
    m: Map<u64, u64>,
    s: TableModel,
)
    requires
        wf_type(t0),
        conforms_list(t0, vals),
        encode_list(t0, vals, m) is Some,
    ensures
        decode_list(t0, encode_list(t0, vals, m).unwrap(), s) == (
            Ok::<Seq<ValueModel>, ErrorModel>(vals),
            s,
        ),
    decreases t0, vals.len() + 2,
{
    if vals.len() > 0 {
        let es = encode_list(t0, vals, m).unwrap();
        let es0 = encode_list(t0, vals.drop_last(), m).unwrap();
        let e_last = spec_encode(t0, vals.last(), m).unwrap();
        assert(es == es0.push(e_last));
        assert(es.drop_last() =~= es0);
        lemma_round_trip_list(t0, vals.drop_last(), m, s);
        lemma_round_trip(t0, vals.last(), m, s);
        assert(vals.drop_last().push(vals.last()) =~= vals);
    } else {
        assert(encode_list(t0, vals, m).unwrap() =~= Seq::<EncodedModel>::empty());
        assert(vals =~= Seq::<ValueModel>::empty());
    }
}

/// Round trip: for every well-formed schema type and every conforming value
/// whose handles resolve, decoding the encoding returns the value unchanged,
/// and the decode leaves the resource table exactly as it found it.
pub proof fn lemma_round_trip(t: TypeModel, v: ValueModel, m: Map<u64, u64>, s: TableModel)
    requires
        wf_type(t),
        conforms(t, v),
        spec_encode(t, v, m) is Some,
    ensures
        spec_decode(t, spec_encode(t, v, m).unwrap(), s) == (Ok::<ValueModel, ErrorModel>(v), s),
    decreases t, 1nat,
{
    let e = spec_encode(t, v, m).unwrap();
    match (t, v) {
        (TypeModel::Record(fields), ValueModel::Record(vals)) => {
            lemma_round_trip_fields(fields, vals, m, s);
            assert(spec_decode(t, e, s) == (Ok::<ValueModel, ErrorModel>(v), s));
        },
        (TypeModel::Variant(cases), ValueModel::Variant { case, payload }) => {
            lemma_reserved_keys_distinct();
            lemma_find_name_self(case_names(cases), case);
            assert(case_names(cases)[case] == cases[case].0);
            match (cases[case].1, payload) {
                (Some(pt), Some(pv)) => {
                    lemma_wf_cases(cases);
                    lemma_round_trip(pt, *pv, m, s);
                    let ep = spec_encode(pt, *pv, m).unwrap();
                    let pairs = seq![
                        (tag_key(), EncodedModel::Text(cases[case].0)),
                        (value_key(), ep),
                    ];
                    assert(pairs.len() == 2 && pairs[0] == (
                        tag_key(),
                        EncodedModel::Text(cases[case].0),
                    ) && pairs[1] == (value_key(), ep));
                    assert(lookup_pair(pairs, tag_key()) == Some(
                        EncodedModel::Text(cases[case].0),
                    ));
                    let rest = pairs.drop_first();
                    assert(rest =~= seq![(value_key(), ep)]);
                    assert(rest.len() == 1 && rest[0] == (value_key(), ep));
                    assert(lookup_pair(rest, value_key()) == Some(ep));
                    assert(lookup_pair(pairs, value_key()) == Some(ep));
                },
                (None, None) => {
                    let pairs = seq![(tag_key(), EncodedModel::Text(cases[case].0))];
                    assert(lookup_pair(pairs, tag_key()) == Some(
                        EncodedModel::Text(cases[case].0),
                    ));
                },
                _ => {},
            }
        },
        (TypeModel::Enumeration(names), ValueModel::Enumeration(i)) => {
            lemma_find_name_self(names, i);
            assert(spec_decode(t, e, s) == (Ok::<ValueModel, ErrorModel>(v), s));
        },
        (TypeModel::Flags(names), ValueModel::Flags(bits)) => {
            let acc0 = Seq::new(names.len(), |i: int| false);
            lemma_flags_round_trip(names, bits, names.len() as int, acc0);
            assert(names.take(names.len() as int) =~= names);
            assert(bits.take(names.len() as int) =~= bits);
            assert(Seq::new(names.len(), |i: int| acc0[i] || (i < names.len() && bits[i]))
                =~= bits);
            assert(decode_flags(names, encode_flags(names, bits), acc0) == Ok::<
                Seq<bool>,
                ErrorModel,
            >(bits));
            assert(acc0 =~= Seq::new(names.len(), |i: int| false));
            assert(spec_decode(t, e, s) == (Ok::<ValueModel, ErrorModel>(v), s));
        },
        (TypeModel::Tuple(tys), ValueModel::Tuple(vals)) => {
            lemma_encode_tuple_len(tys, vals, m);
            lemma_round_trip_tuple(tys, vals, m, s);
            assert(spec_decode(t, e, s) == (Ok::<ValueModel, ErrorModel>(v), s));
        },
        (TypeModel::List(t0), ValueModel::List(vals)) => {
            lemma_round_trip_list(*t0, vals, m, s);
            assert(spec_decode(t, e, s) == (Ok::<ValueModel, ErrorModel>(v), s));
        },
        (TypeModel::Optional(t0), ValueModel::Optional(o)) => match o {
            None => {},
            Some(pv) => {
                lemma_round_trip(*t0, *pv, m, s);
                let ep = spec_encode(*t0, *pv, m).unwrap();
                if wraps_some(*t0) {
                    let pairs = seq![(some_key(), ep)];
                    assert(lookup_pair(pairs, some_key()) == Some(ep));
                } else {
                    lemma_unwrapped_not_absent(*t0, *pv, m);
                }
            },
        },
        (TypeModel::ResultOf { ok, err }, ValueModel::ResultOf { is_ok, payload }) => {
            lemma_reserved_keys_distinct();
            if is_ok {
                match (ok, payload) {
                    (Some(pt), Some(pv)) => {
                        lemma_round_trip(*pt, *pv, m, s);
                        let ep = spec_encode(*pt, *pv, m).unwrap();
                        let pairs = seq![(ok_key(), ep)];
                        assert(lookup_pair(pairs, ok_key()) == Some(ep));
                    },
                    (None, None) => {
                        let pairs = seq![(ok_key(), EncodedModel::Null)];
                        assert(lookup_pair(pairs, ok_key()) == Some(EncodedModel::Null));
                    },
                    _ => {},
                }
            } else {
                match (err, payload) {
                    (Some(pt), Some(pv)) => {
                        lemma_round_trip(*pt, *pv, m, s);
                        let ep = spec_encode(*pt, *pv, m).unwrap();
                        let pairs = seq![(err_key(), ep)];
                        assert(pairs.len() == 1 && pairs[0] == (err_key(), ep));
                        assert(pairs.drop_first() =~= Seq::<(Seq<char>, EncodedModel)>::empty());
                        assert(lookup_pair(Seq::<(Seq<char>, EncodedModel)>::empty(), ok_key())
                            is None);
                        assert(lookup_pair(pairs.drop_first(), ok_key()) is None);
                        assert(lookup_pair(pairs, ok_key()) is None);
                        assert(lookup_pair(pairs, err_key()) == Some(ep));
                    },
                    (None, None) => {
                        let pairs = seq![(err_key(), EncodedModel::Null)];
                        assert(pairs.len() == 1 && pairs[0] == (err_key(), EncodedModel::Null));
                        assert(pairs.drop_first() =~= Seq::<(Seq<char>, EncodedModel)>::empty());
                        assert(lookup_pair(Seq::<(Seq<char>, EncodedModel)>::empty(), ok_key())
                            is None);
                        assert(lookup_pair(pairs.drop_first(), ok_key()) is None);
                        assert(lookup_pair(pairs, ok_key()) is None);
                        assert(lookup_pair(pairs, err_key()) == Some(EncodedModel::Null));
                    },
                    _ => {},
                }
            }
        },
        _ => {},
    }
}

/// Encoding a conforming value succeeds whenever every handle it mentions is
/// live in the resource table: success is owed on exactly these inputs.
pub proof fn lemma_encode_total(t: TypeModel, v: ValueModel, m: Map<u64, u64>)
    requires
        conforms(t, v),
        forall|id: u64| handles_in(v).contains(id) ==> m.dom().contains(id),
    ensures
        spec_encode(t, v, m) is Some,
    decreases t, 1nat,
{
    match (t, v) {
        (TypeModel::Record(fields), ValueModel::Record(vals)) => {
            lemma_encode_total_fields(fields, vals, m);
        },
        (TypeModel::Variant(cases), ValueModel::Variant { case, payload }) => {
            match (cases[case].1, payload) {
                (Some(pt), Some(pv)) => {
                    lemma_encode_total(pt, *pv, m);
                },
                _ => {},
            }
        },
        (TypeModel::Tuple(tys), ValueModel::Tuple(vals)) => {
            lemma_encode_total_tuple(tys, vals, m);
        },
        (TypeModel::List(t0), ValueModel::List(vals)) => {
            lemma_encode_total_list(*t0, vals, m);
        },
        (TypeModel::Optional(t0), ValueModel::Optional(o)) => match o {
            Some(pv) => {
                lemma_encode_total(*t0, *pv, m);
            },
            None => {},
        },
        (TypeModel::ResultOf { ok, err }, ValueModel::ResultOf { is_ok, payload }) => {
            if is_ok {
                match (ok, payload) {
                    (Some(pt), Some(pv)) => {
                        lemma_encode_total(*pt, *pv, m);
                    },
                    _ => {},
                }
            } else {
                match (err, payload) {
                    (Some(pt), Some(pv)) => {
                        lemma_encode_total(*pt, *pv, m);
                    },
                    _ => {},
                }
            }
        },
        (TypeModel::Handle { .. }, ValueModel::Handle { id }) => {
            assert(handles_in(v).contains(id));
        },
        _ => {},
    }
}

proof fn lemma_encode_total_fields(
    fields: Seq<(Seq<char>, TypeModel)>,
    vals: Seq<ValueModel>,
    m: Map<u64, u64>,
)
    requires
        fields.len() == vals.len(),
        conforms_fields(fields, vals),
        forall|id: u64| handles_in_seq(vals).contains(id) ==> m.dom().contains(id),
    ensures
        encode_fields(fields, vals, m) is Some,
    decreases fields, fields.len(),
{
    if fields.len() > 0 {
        assert(forall|id: u64|
            handles_in_seq(vals.drop_last()).contains(id) ==> handles_in_seq(vals).contains(id));
        lemma_encode_total_fields(fields.drop_last(), vals.drop_last(), m);
        assert(forall|id: u64|
            handles_in(vals.last()).contains(id) ==> handles_in_seq(vals).contains(id));
        lemma_encode_total(fields.last().1, vals.last(), m);
    }
}

proof fn lemma_encode_total_tuple(tys: Seq<TypeModel>, vals: Seq<ValueModel>, m: Map<u64, u64>)
    requires
        tys.len() == vals.len(),
        conforms_tuple(tys, vals),
        forall|id: u64| handles_in_seq(vals).contains(id) ==> m.dom().contains(id),
    ensures
        encode_tuple(tys, vals, m) is Some,
    decreases tys, tys.len(),
{
    if tys.len() > 0 {
        assert(forall|id: u64|
            handles_in_seq(vals.drop_last()).contains(id) ==> handles_in_seq(vals).contains(id));
        lemma_encode_total_tuple(tys.drop_last(), vals.drop_last(), m);
        assert(forall|id: u64|
            handles_in(vals.last()).contains(id) ==> handles_in_seq(vals).contains(id));
        lemma_encode_total(tys.last(), vals.last(), m);
    }
}

proof fn lemma_encode_total_list(t0: TypeModel, vals: Seq<ValueModel>, m: Map<u64, u64>)
    requires
        conforms_list(t0, vals),
        forall|id: u64| handles_in_seq(vals).contains(id) ==> m.dom().contains(id),
    ensures
        encode_list(t0, vals, m) is Some,
    decreases t0, vals.len() + 2,
{
    if vals.len() > 0 {
        assert(forall|id: u64|
            handles_in_seq(vals.drop_last()).contains(id) ==> handles_in_seq(vals).contains(id));
        lemma_encode_total_list(t0, vals.drop_last(), m);
        assert(forall|id: u64|
            handles_in(vals.last()).contains(id) ==> handles_in_seq(vals).contains(id));
        lemma_encode_total(t0, vals.last(), m);
    }
}

/// Resource identity: registering an object, then registering it again with
/// the identifier it now carries, returns the same identifier both times and
/// leaves the table as the first registration made it; the identifier
/// resolves to the registered object token.
pub proof fn lemma_resource_identity(m: TableModel, token: u64)
    requires
        m.wf(),
        m.next < u64::MAX as int,
    ensures
        ({
            let (id1, m1) = spec_register(m, None, token);
            let (id2, m2) = spec_register(m1, Some(id1), token);
            &&& id2 == id1
            &&& m2 == m1
            &&& spec_lookup(m1, id1) == Some(token)
        }),
{
}

/// No premature drop: enqueueing a live handle for release removes nothing,
/// and the handle keeps resolving to the same object until the drain at the
/// outermost return of the call bridge, which alone releases it.
pub proof fn lemma_no_premature_drop(m: TableModel, id: u64)
    requires
        m.live(id),
    ensures
        spec_enqueue(m, id).live(id),
        spec_lookup(spec_enqueue(m, id), id) == spec_lookup(m, id),
        !spec_drain(spec_enqueue(m, id)).live(id),
        spec_lookup(spec_drain(spec_enqueue(m, id)), id) is None,
{
    lemma_remove_ids(m.entries, m.pending.push(id));
    assert(m.pending.push(id).contains(id)) by {
        assert(m.pending.push(id)[m.pending.len() as int] == id);
    }
}

/// End-to-end invocation: what the call bridge's five steps compose to.
/// Marshalling conforming arguments is owed to succeed; a pending deferred
/// computation with queued engine work advances and a resolved one settles
/// with its value; unmarshalling the settled encoding of the
/// implementation's value returns exactly that value and leaves the
/// resource table untouched; and a handle enqueued for release while the
/// call is in flight keeps resolving through every step, until the single
/// drain that `CallBridge::finish_invocation` performs at the outermost
/// return, after the result is captured.
pub proof fn lemma_synchronous_invocation(
    arg_t: TypeModel,
    arg_v: ValueModel,
    ret_t: TypeModel,
    ret_v: ValueModel,
    s0: TableModel,
    dropped: u64,
)
    requires
        s0.wf(),
        conforms(arg_t, arg_v),
        forall|id: u64| handles_in(arg_v).contains(id) ==> s0.entries.dom().contains(id),
        wf_type(ret_t),
        conforms(ret_t, ret_v),
        forall|id: u64| handles_in(ret_v).contains(id) ==> s0.entries.dom().contains(id),
        s0.live(dropped),
    ensures
        spec_encode(arg_t, arg_v, s0.entries) is Some,
        spec_drive_step(PromiseState::Pending, true) == DriveOutcome::Advance,
        forall|p: PromiseState, can: bool| #![trigger spec_drive_step(p, can)]
            (p matches PromiseState::Resolved(r) ==> spec_drive_step(p, can)
                == DriveOutcome::Settled(Ok(r))),
        ({
            let s1 = spec_enqueue(s0, dropped);
            let enc = spec_encode(ret_t, ret_v, s0.entries).unwrap();
            &&& spec_lookup(s1, dropped) == spec_lookup(s0, dropped)
            &&& spec_encode(ret_t, ret_v, s1.entries) == spec_encode(ret_t, ret_v, s0.entries)
            &&& spec_decode(ret_t, enc, s1) == (Ok::<ValueModel, ErrorModel>(ret_v), s1)
            &&& !spec_drain(s1).live(dropped)
            &&& spec_lookup(spec_drain(s1), dropped) is None
        }),
{
    lemma_encode_total(arg_t, arg_v, s0.entries);
    lemma_encode_total(ret_t, ret_v, s0.entries);
    lemma_no_premature_drop(s0, dropped);
    lemma_round_trip(ret_t, ret_v, s0.entries, spec_enqueue(s0, dropped));
}

} // verus!
