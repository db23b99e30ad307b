//! The field binder: matching aggregated values against the schema.

use vstd::prelude::*;

use crate::aggregate::AggregatedValues;
use crate::aggregate::aggregate;
use crate::aggregate::lookup;
use crate::aggregate::values_for;
use crate::parse::IntParseError;
use crate::parse::int_parse_message;
use crate::parse::parse_i64;
use crate::parse::spec_parse_all;
use crate::schema::FieldDescriptor;
use crate::schema::FieldDescriptorView;
use crate::schema::FieldShape;
use crate::schema::schema_view;

verus! {

/// One bound field: a raw scalar, a raw list, a converted list, or absent
/// (an optional shape that saw no value).
#[derive(Debug, PartialEq)]
pub enum BoundValue {
    Absent,
    Text(String),
    TextList(Vec<String>),
    IntList(Vec<i64>),
}

/// The mathematical content of a `BoundValue`.
pub enum BoundValueView {
    Absent,
    Text(Seq<char>),
    TextList(Seq<Seq<char>>),
    IntList(Seq<i64>),
}

impl View for BoundValue {
    type V = BoundValueView;

    open spec fn view(&self) -> BoundValueView {
        match self {
            BoundValue::Absent => BoundValueView::Absent,
            BoundValue::Text(s) => BoundValueView::Text(s@),
            BoundValue::TextList(vs) => BoundValueView::TextList(vs.deep_view()),
            BoundValue::IntList(ns) => BoundValueView::IntList(ns@),
        }
    }
}

impl DeepView for BoundValue {
    type V = BoundValueView;

    open spec fn deep_view(&self) -> BoundValueView {
        self.view()
    }
}

/// The binding failure of one field: its declared name and a
/// human-readable message.  At most one is produced per binding call.
#[derive(Debug, PartialEq)]
pub struct BindingError {
    pub field: String,
    pub message: String,
}

/// The mathematical content of a `BindingError`.
pub struct BindingErrorView {
    pub field: Seq<char>,
    pub message: Seq<char>,
}

impl View for BindingError {
    type V = BindingErrorView;

    open spec fn view(&self) -> BindingErrorView {
        BindingErrorView { field: self.field@, message: self.message@ }
    }
}

/// The typed output of a successful binding: one entry per schema field,
/// in schema order.
#[derive(Debug, PartialEq)]
pub struct BoundRecord {
    pub fields: Vec<(String, BoundValue)>,
}

impl View for BoundRecord {
    type V = Seq<(Seq<char>, BoundValueView)>;

    open spec fn view(&self) -> Seq<(Seq<char>, BoundValueView)> {
        self.fields.deep_view()
    }
}

/// The message reported when a required scalar field has no value.
pub open spec fn missing_field_message(name: Seq<char>) -> Seq<char> {
    "Missing required field: '"@ + name + "'"@
}

/// The error of a required scalar field that saw no value.
fn make_missing_error(name: &String) -> (r: BindingError)
    ensures
        r@.field == name@,
        r@.message == missing_field_message(name@),
{
    let mut m = String::from_str("Missing required field: '");
    m.append(name.as_str());
    m.append("'");
    BindingError { field: name.clone(), message: m }
}

/// What binding one field descriptor against its aggregated raw values
/// yields: last value wins for scalars, lists keep every value in order,
/// optional shapes collapse to absent on emptiness, and a declared
/// conversion parses every value with the first failure aborting.
pub open spec fn spec_bind_field(d: FieldDescriptorView, vals: Seq<Seq<char>>) -> Result<
    BoundValueView,
    BindingErrorView,
> {
    match d.shape {
        FieldShape::RequiredScalar => if vals.len() == 0 {
            Err(BindingErrorView { field: d.name, message: missing_field_message(d.name) })
        } else {
            Ok(BoundValueView::Text(vals.last()))
        },
        FieldShape::OptionalScalar => if vals.len() == 0 {
            Ok(BoundValueView::Absent)
        } else {
            Ok(BoundValueView::Text(vals.last()))
        },
        FieldShape::RequiredList => if d.convert {
            match spec_parse_all(vals) {
                Ok(ns) => Ok(BoundValueView::IntList(ns)),
                Err(e) => Err(BindingErrorView { field: d.name, message: int_parse_message(e) }),
            }
        } else {
            Ok(BoundValueView::TextList(vals))
        },
        FieldShape::OptionalList => if vals.len() == 0 {
            Ok(BoundValueView::Absent)
        } else if d.convert {
            match spec_parse_all(vals) {
                Ok(ns) => Ok(BoundValueView::IntList(ns)),
                Err(e) => Err(BindingErrorView { field: d.name, message: int_parse_message(e) }),
            }
        } else {
            Ok(BoundValueView::TextList(vals))
        },
    }
}

/// What binding a whole schema against a source of value lists yields:
/// every field in schema order, the first failing field deciding the
/// error.
pub open spec fn spec_bind(
    schema: Seq<FieldDescriptorView>,
    vals: spec_fn(Seq<char>) -> Seq<Seq<char>>,
) -> Result<Seq<(Seq<char>, BoundValueView)>, BindingErrorView>
    decreases schema.len(),
{
    if schema.len() == 0 {
        Ok(Seq::empty())
    } else {
        match spec_bind(schema.drop_last(), vals) {
            Err(e) => Err(e),
            Ok(rec) => match spec_bind_field(schema.last(), vals(schema.last().name)) {
                Err(e) => Err(e),
                Ok(v) => Ok(rec.push((schema.last().name, v))),
            },
        }
    }
}

/// The value lists that an aggregation gives out, as a function of keys.
pub open spec fn agg_fn(groups: Seq<(Seq<char>, Seq<Seq<char>>)>) -> spec_fn(Seq<char>) -> Seq<
    Seq<char>,
> {
    |k: Seq<char>| lookup(groups, k)
}

/// The value lists that the raw pairs carry, as a function of keys.
pub open spec fn pairs_fn(pairs: Seq<(Seq<char>, Seq<char>)>) -> spec_fn(Seq<char>) -> Seq<
    Seq<char>,
> {
    |k: Seq<char>| values_for(pairs, k)
}

/// What the end-to-end binding of a raw submission against a schema
/// yields.
pub open spec fn spec_deserialize(
    schema: Seq<FieldDescriptorView>,
    pairs: Seq<(Seq<char>, Seq<char>)>,
) -> Result<Seq<(Seq<char>, BoundValueView)>, BindingErrorView> {
    spec_bind(schema, pairs_fn(pairs))
}

/// A failing prefix of the raw values decides the whole parse.
proof fn lemma_parse_all_err_prefix(vals: Seq<Seq<char>>, j: int)
    requires
        0 <= j <= vals.len(),
        spec_parse_all(vals.take(j)) is Err,
    ensures
        spec_parse_all(vals) == spec_parse_all(vals.take(j)),
    decreases vals.len() - j,
{
    if j < vals.len() {
        assert(vals.take(j + 1).drop_last() =~= vals.take(j));
        lemma_parse_all_err_prefix(vals, j + 1);
    } else {
        assert(vals.take(j) =~= vals);
    }
}

/// A failing prefix of the schema decides the whole binding.
proof fn lemma_bind_err_prefix(
    schema: Seq<FieldDescriptorView>,
    vals: spec_fn(Seq<char>) -> Seq<Seq<char>>,
    j: int,
)
    requires
        0 <= j <= schema.len(),
        spec_bind(schema.take(j), vals) is Err,
    ensures
        spec_bind(schema, vals) == spec_bind(schema.take(j), vals),
    decreases schema.len() - j,
{
    if j < schema.len() {
        assert(schema.take(j + 1).drop_last() =~= schema.take(j));
        lemma_bind_err_prefix(schema, vals, j + 1);
    } else {
        assert(schema.take(j) =~= schema);
    }
}

/// An owned copy of the raw values of one field, view-preserving.
fn clone_values(vals: &Vec<String>) -> (r: Vec<String>)
    ensures
        r.deep_view() == vals.deep_view(),
{
    let r = vals.clone();
    proof {
        assert forall|i: int| 0 <= i < r@.len() implies r@[i] == vals@[i] by {
            assert(cloned::<String>(vals@[i], r@[i]));
        }
        assert(r.deep_view() =~= vals.deep_view());
    }
    r
}

/// Parses every raw value of a list field, in order; the first failure
/// aborts.
pub fn parse_all(vals: &Vec<String>) -> (r: Result<Vec<i64>, IntParseError>)
    ensures
        match r {
            Ok(ns) => spec_parse_all(vals.deep_view()) == Ok::<Seq<i64>, IntParseError>(ns@),
            Err(e) => spec_parse_all(vals.deep_view()) == Err::<Seq<i64>, IntParseError>(e),
        },
{
    let ghost vv = vals.deep_view();
    let mut out: Vec<i64> = Vec::new();
    let mut i: usize = 0;
    proof {
        assert(vv.take(0) =~= Seq::<Seq<char>>::empty());
    }
    while i < vals.len()
        invariant
            i <= vals.len(),
            vv == vals.deep_view(),
            spec_parse_all(vv.take(i as int)) == Ok::<Seq<i64>, IntParseError>(out@),
        decreases vals.len() - i,
    {
        proof {
            assert(vv.take(i + 1).drop_last() =~= vv.take(i as int));
            assert(vv.take(i + 1).last() == vv[i as int]);
            assert(vv[i as int] == vals@[i as int]@);
        }
        match parse_i64(vals[i].as_str()) {
            Ok(n) => {
                out.push(n);
            },
            Err(e) => {
                proof {
                    lemma_parse_all_err_prefix(vv, i + 1);
                }
                return Err(e);
            },
        }
        i = i + 1;
    }
    proof {
        assert(vv.take(vals.len() as int) =~= vv);
    }
    Ok(out)
}

/// Applies one field descriptor to the raw values aggregated under its
/// name, exactly as `spec_bind_field` says.
pub fn bind_field(d: &FieldDescriptor, vals: &Vec<String>) -> (r: Result<BoundValue, BindingError>)
    ensures
        match r {
            Ok(v) => spec_bind_field(d@, vals.deep_view()) == Ok::<
                BoundValueView,
                BindingErrorView,
            >(v@),
            Err(e) => spec_bind_field(d@, vals.deep_view()) == Err::<
                BoundValueView,
                BindingErrorView,
            >(e@),
        },
{
    proof {
        if vals@.len() > 0 {
            assert(vals.deep_view().last() == vals@[vals@.len() - 1]@);
        }
    }
    match d.shape {
        FieldShape::RequiredScalar => {
            if vals.len() == 0 {
                Err(make_missing_error(&d.name))
            } else {
                Ok(BoundValue::Text(vals[vals.len() - 1].clone()))
            }
        },
        FieldShape::OptionalScalar => {
            if vals.len() == 0 {
                Ok(BoundValue::Absent)
            } else {
                Ok(BoundValue::Text(vals[vals.len() - 1].clone()))
            }
        },
        FieldShape::RequiredList => {
            if d.convert {
                match parse_all(vals) {
                    Ok(ns) => Ok(BoundValue::IntList(ns)),
                    Err(e) => Err(BindingError { field: d.name.clone(), message: e.message() }),
                }
            } else {
                Ok(BoundValue::TextList(clone_values(vals)))
            }
        },
        FieldShape::OptionalList => {
            if vals.len() == 0 {
                Ok(BoundValue::Absent)
            } else if d.convert {
                match parse_all(vals) {
                    Ok(ns) => Ok(BoundValue::IntList(ns)),
                    Err(e) => Err(BindingError { field: d.name.clone(), message: e.message() }),
                }
            } else {
                Ok(BoundValue::TextList(clone_values(vals)))
            }
        },
    }
}

/// Walks the schema in order and binds every field against its aggregated
/// values.  On success the record holds one entry per schema field, in
/// schema order; otherwise the first failing field, in schema order,
/// decides the error.
pub fn bind(schema: &Vec<FieldDescriptor>, values: &AggregatedValues) -> (r: Result<
    BoundRecord,
    BindingError,
>)
    ensures
        match r {
            Ok(rec) => spec_bind(schema_view(schema@), agg_fn(values@)) == Ok::<
                Seq<(Seq<char>, BoundValueView)>,
                BindingErrorView,
            >(rec@),
            Err(e) => spec_bind(schema_view(schema@), agg_fn(values@)) == Err::<
                Seq<(Seq<char>, BoundValueView)>,
                BindingErrorView,
            >(e@),
        },
{
    let ghost sv = schema_view(schema@);
    let ghost vf = agg_fn(values@);
    let mut fields: Vec<(String, BoundValue)> = Vec::new();
    let mut i: usize = 0;
    proof {
        assert(sv.take(0) =~= Seq::<FieldDescriptorView>::empty());
        assert(fields.deep_view() =~= Seq::<(Seq<char>, BoundValueView)>::empty());
    }
    while i < schema.len()
        invariant
            i <= schema.len(),
            sv == schema_view(schema@),
            vf == agg_fn(values@),
            spec_bind(sv.take(i as int), vf) == Ok::<
                Seq<(Seq<char>, BoundValueView)>,
                BindingErrorView,
            >(fields.deep_view()),
        decreases schema.len() - i,
    {
        let d = &schema[i];
        proof {
            assert(sv.take(i + 1).drop_last() =~= sv.take(i as int));
            assert(sv.take(i + 1).last() == sv[i as int]);
            assert(sv[i as int] == d@);
        }
        let field_result = match values.get(&d.name) {
            Some(v) => {
                proof {
                    assert(v.deep_view() == vf(d.name@));
                }
                bind_field(d, v)
            },
            None => {
                let empty_vals: Vec<String> = Vec::new();
                proof {
                    assert(empty_vals.deep_view() =~= vf(d.name@));
                }
                bind_field(d, &empty_vals)
            },
        };
        match field_result {
            Ok(v) => {
                let ghost prev = fields.deep_view();
                let ghost vview = v@;
                fields.push((d.name.clone(), v));
                proof {
                    assert(fields.deep_view() =~= prev.push((d.name@, vview)));
                }
            },
            Err(e) => {
                proof {
                    lemma_bind_err_prefix(sv, vf, i + 1);
                }
                return Err(e);
            },
        }
        i = i + 1;
    }
    proof {
        assert(sv.take(schema.len() as int) =~= sv);
    }
    Ok(BoundRecord { fields })
}

/// Aggregates the raw pairs and binds the schema against them: the whole
/// operation, from decoded submission to typed record or first error.
pub fn deserialize(schema: &Vec<FieldDescriptor>, data: &Vec<(String, String)>) -> (r: Result<
    BoundRecord,
    BindingError,
>)
    ensures
        match r {
            Ok(rec) => spec_deserialize(schema_view(schema@), data.deep_view()) == Ok::<
                Seq<(Seq<char>, BoundValueView)>,
                BindingErrorView,
            >(rec@),
            Err(e) => spec_deserialize(schema_view(schema@), data.deep_view()) == Err::<
                Seq<(Seq<char>, BoundValueView)>,
                BindingErrorView,
            >(e@),
        },
{
    let agg = aggregate(data);
    let r = bind(schema, &agg);
    proof {
        let sv = schema_view(schema@);
        assert forall|i: int| 0 <= i < sv.len() implies agg_fn(agg@)((#[trigger] sv[i]).name)
            == pairs_fn(data.deep_view())(sv[i].name) by {
            assert(lookup(agg@, sv[i].name) == values_for(data.deep_view(), sv[i].name));
        }
        lemma_bind_vals_agnostic(sv, agg_fn(agg@), pairs_fn(data.deep_view()));
    }
    r
}

/// Binding consults the value lists of the schema's own field names
/// alone: two sources that agree on every declared name bind identically.
pub proof fn lemma_bind_vals_agnostic(
    schema: Seq<FieldDescriptorView>,
    f: spec_fn(Seq<char>) -> Seq<Seq<char>>,
    g: spec_fn(Seq<char>) -> Seq<Seq<char>>,
)
    requires
        forall|i: int| 0 <= i < schema.len() ==> f((#[trigger] schema[i]).name) == g(
            schema[i].name,
        ),
    ensures
        spec_bind(schema, f) == spec_bind(schema, g),
    decreases schema.len(),
{
    if schema.len() > 0 {
        assert(forall|i: int|
            0 <= i < schema.len() - 1 ==> #[trigger] schema.drop_last()[i] == schema[i]);
        lemma_bind_vals_agnostic(schema.drop_last(), f, g);
        assert(schema.last() == schema[schema.len() - 1]);
    }
}

/// Binding is deterministic: the outcome is a function of the schema and
/// the raw pairs alone, so repeated calls on identical inputs yield
/// identical results.
pub proof fn lemma_deserialize_deterministic(
    schema: Seq<FieldDescriptorView>,
    pairs: Seq<(Seq<char>, Seq<char>)>,
    r1: Result<Seq<(Seq<char>, BoundValueView)>, BindingErrorView>,
    r2: Result<Seq<(Seq<char>, BoundValueView)>, BindingErrorView>,
)
    requires
        r1 == spec_deserialize(schema, pairs),
        r2 == spec_deserialize(schema, pairs),
    ensures
        r1 == r2,
{
}

/// A pair whose key no schema field declares has no effect on binding:
/// unknown keys are silently ignored.
pub proof fn lemma_unknown_key_ignored(
    schema: Seq<FieldDescriptorView>,
    pairs: Seq<(Seq<char>, Seq<char>)>,
    extra: (Seq<char>, Seq<char>),
)
    requires
        forall|i: int| 0 <= i < schema.len() ==> (#[trigger] schema[i]).name != extra.0,
    ensures
        spec_deserialize(schema, pairs.push(extra)) == spec_deserialize(schema, pairs),
{
    assert forall|i: int| 0 <= i < schema.len() implies pairs_fn(pairs.push(extra))((
    #[trigger] schema[i]).name) == pairs_fn(pairs)(schema[i].name) by {
        assert(pairs.push(extra).drop_last() =~= pairs);
        assert(pairs.push(extra).last() == extra);
    }
    lemma_bind_vals_agnostic(schema, pairs_fn(pairs.push(extra)), pairs_fn(pairs));
}

/// A successful binding populates the whole record: one entry per schema
/// field, in schema order, under the declared name, each holding exactly
/// what its own descriptor binds to — there is no partially populated
/// result, and the fields are bound independently of one another.
pub proof fn lemma_bind_fully_populated(
    schema: Seq<FieldDescriptorView>,
    vals: spec_fn(Seq<char>) -> Seq<Seq<char>>,
)
    requires
        spec_bind(schema, vals) is Ok,
    ensures
        spec_bind(schema, vals) matches Ok(rec) ==> rec.len() == schema.len() && (forall|i: int|
            0 <= i < schema.len() ==> (#[trigger] rec[i]).0 == schema[i].name) && (forall|i: int|
            0 <= i < schema.len() ==> spec_bind_field(
                schema[i],
                vals((#[trigger] schema[i]).name),
            ) == Ok::<BoundValueView, BindingErrorView>(rec[i].1)),
    decreases schema.len(),
{
    if schema.len() > 0 {
        let prefix = schema.drop_last();
        lemma_bind_fully_populated(prefix, vals);
        assert(forall|i: int| 0 <= i < schema.len() - 1 ==> #[trigger] prefix[i] == schema[i]);
        let rec = spec_bind(schema, vals)->Ok_0;
        let rec_p = spec_bind(prefix, vals)->Ok_0;
        assert(rec == rec_p.push((schema.last().name, spec_bind_field(
            schema.last(),
            vals(schema.last().name),
        )->Ok_0)));
        assert(schema.last() == schema[schema.len() - 1]);
    }
}

/// Whether field `i` of the schema binds successfully against `vals`.
pub open spec fn field_binds(
    schema: Seq<FieldDescriptorView>,
    vals: spec_fn(Seq<char>) -> Seq<Seq<char>>,
    i: int,
) -> bool {
    spec_bind_field(schema[i], vals(schema[i].name)) is Ok
}

/// A failed binding surfaces exactly one error: that of the first field,
/// in schema order, that genuinely fails — every earlier field binds
/// successfully.
pub proof fn lemma_bind_first_error(
    schema: Seq<FieldDescriptorView>,
    vals: spec_fn(Seq<char>) -> Seq<Seq<char>>,
)
    requires
        spec_bind(schema, vals) is Err,
    ensures
        exists|i: int|
            0 <= i < schema.len() && !(#[trigger] field_binds(schema, vals, i)) && (forall|j: int|
                0 <= j < i ==> #[trigger] field_binds(schema, vals, j)) && spec_bind(schema, vals)
                == Err::<Seq<(Seq<char>, BoundValueView)>, BindingErrorView>(
                spec_bind_field(schema[i], vals(schema[i].name))->Err_0,
            ),
    decreases schema.len(),
{
    let prefix = schema.drop_last();
    assert(forall|i: int| 0 <= i < schema.len() - 1 ==> #[trigger] prefix[i] == schema[i]);
    if spec_bind(prefix, vals) is Err {
        lemma_bind_first_error(prefix, vals);
        let i = choose|i: int|
            0 <= i < prefix.len() && !(#[trigger] field_binds(prefix, vals, i)) && (forall|j: int|
                0 <= j < i ==> #[trigger] field_binds(prefix, vals, j)) && spec_bind(prefix, vals)
                == Err::<Seq<(Seq<char>, BoundValueView)>, BindingErrorView>(
                spec_bind_field(prefix[i], vals(prefix[i].name))->Err_0,
            );
        assert(forall|j: int|
            0 <= j < i ==> field_binds(prefix, vals, j) == #[trigger] field_binds(
                schema,
                vals,
                j,
            ));
        assert(0 <= i < schema.len() && !field_binds(schema, vals, i) && (forall|j: int|
            0 <= j < i ==> #[trigger] field_binds(schema, vals, j)) && spec_bind(schema, vals)
            == Err::<Seq<(Seq<char>, BoundValueView)>, BindingErrorView>(
            spec_bind_field(schema[i], vals(schema[i].name))->Err_0,
        ));
    } else {
        let i = schema.len() - 1;
        assert(schema.last() == schema[i]);
        lemma_bind_fully_populated(prefix, vals);
        let rec_p = spec_bind(prefix, vals)->Ok_0;
        assert forall|j: int| 0 <= j < i implies #[trigger] field_binds(schema, vals, j) by {
            assert(prefix[j] == schema[j]);
            assert(spec_bind_field(prefix[j], vals(prefix[j].name)) == Ok::<
                BoundValueView,
                BindingErrorView,
            >(rec_p[j].1));
        }
        assert(!field_binds(schema, vals, i));
        assert(0 <= i < schema.len() && !field_binds(schema, vals, i) && (forall|j: int|
            0 <= j < i ==> #[trigger] field_binds(schema, vals, j)) && spec_bind(schema, vals)
            == Err::<Seq<(Seq<char>, BoundValueView)>, BindingErrorView>(
            spec_bind_field(schema[i], vals(schema[i].name))->Err_0,
        ));
    }
}

/// The bound value that `fields` holds under `name`, the first entry
/// winning.
pub open spec fn record_lookup(
    fields: Seq<(Seq<char>, BoundValueView)>,
    name: Seq<char>,
) -> Option<BoundValueView>
    decreases fields.len(),
{
    if fields.len() == 0 {
        None
    } else if fields.first().0 == name {
        Some(fields.first().1)
    } else {
        record_lookup(fields.drop_first(), name)
    }
}

/// When no entry before `i` holds `name`, the record lookup is decided by
/// the entries from `i` on.
proof fn lemma_record_lookup_skip(
    fields: Seq<(Seq<char>, BoundValueView)>,
    name: Seq<char>,
    i: int,
)
    requires
        0 <= i <= fields.len(),
        forall|t: int| 0 <= t < i ==> (#[trigger] fields[t]).0 != name,
    ensures
        record_lookup(fields, name) == record_lookup(fields.skip(i), name),
    decreases i,
{
    if i > 0 {
        assert(fields.first().0 != name);
        assert(forall|t: int|
            0 <= t < i - 1 ==> (#[trigger] fields.drop_first()[t]).0 == fields[t + 1].0);
        lemma_record_lookup_skip(fields.drop_first(), name, i - 1);
        assert(fields.drop_first().skip(i - 1) =~= fields.skip(i));
    } else {
        assert(fields.skip(0) =~= fields);
    }
}

impl BoundRecord {
    /// The bound value of the field called `name`, if the record holds
    /// one.
    pub fn get(&self, name: &String) -> (r: Option<&BoundValue>)
        ensures
            match r {
                Some(v) => record_lookup(self@, name@) == Some(v@),
                None => record_lookup(self@, name@) is None,
            },
    {
        let n = self.fields.len();
        let mut j: usize = 0;
        while j < n
            invariant
                n == self.fields.len(),
                j <= n,
                forall|t: int| 0 <= t < j ==> (#[trigger] self@[t]).0 != name@,
            decreases n - j,
        {
            proof {
                assert(self@[j as int].0 == self.fields@[j as int].0@);
            }
            if self.fields[j].0.eq(name) {
                proof {
                    lemma_record_lookup_skip(self@, name@, j as int);
                    assert(self@.skip(j as int).first() == self@[j as int]);
                }
                return Some(&self.fields[j].1);
            }
            j = j + 1;
        }
        proof {
            lemma_record_lookup_skip(self@, name@, n as int);
            assert(self@.skip(n as int) =~= Seq::<(Seq<char>, BoundValueView)>::empty());
        }
        None
    }
}

} // verus!

