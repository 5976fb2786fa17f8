use vstd::prelude::*;

use crate::paths::{
    has_scope_dot, is_last_scope_dot, is_scope_dot, is_simple_identifier, leaf_segment,
    lemma_last_scope_dot_unique, lemma_leaf_after_scope_dot, lemma_scan_concat, lemma_scan_plain,
    path_scan, scope_split, spec_leaf_segment, str_eq, strip_prefix,
};

verus! {

/// The record type behind a Modelica external table object.
#[derive(Clone, Copy, Debug, PartialEq, Eq, Structural)]
pub enum ExternalTableRecordKind {
    CombiTimeTable,
    CombiTable1D,
}

/// What a Modelica table-library intrinsic computes.
#[derive(Clone, Copy, Debug, PartialEq, Eq, Structural)]
pub enum ExternalTableIntrinsicKind {
    Bounds { table: ExternalTableRecordKind, upper: bool },
    Lookup { table: ExternalTableRecordKind },
    NextEvent { table: ExternalTableRecordKind },
}

/// The arithmetic operators of the `Complex` operator records.
#[derive(Clone, Copy, Debug, PartialEq, Eq, Structural)]
pub enum BinaryOp {
    Add,
    Sub,
    Mul,
    Div,
}

/// The pseudo-random generators of `Modelica.Math.Random`.
#[derive(Clone, Copy, Debug, PartialEq, Eq, Structural)]
pub enum RandomGenerator {
    Xorshift64Star,
    Xorshift128Plus,
    Xorshift1024Star,
}

#[derive(Clone, Copy, Debug, PartialEq, Eq, Structural)]
pub enum RandomIntrinsicKind {
    InitialState,
    Random,
}

/// The Buildings library EnergyPlus coupling functions run on the host.
#[derive(Clone, Copy, Debug, PartialEq, Eq, Structural)]
pub enum ExternalFunctionKind {
    BuildingsEnergyPlusInitialize,
    BuildingsEnergyPlusGetParameters,
    BuildingsEnergyPlusExchange,
    BuildingsEnergyPlusSpawnExternalObject,
}

pub open spec fn spec_time_table_fields() -> Seq<Seq<char>> {
    seq![
        "tableName"@,
        "fileName"@,
        "table"@,
        "startTime"@,
        "columns"@,
        "smoothness"@,
        "extrapolation"@,
        "shiftTime"@,
        "timeEvents"@,
        "verboseRead"@,
        "delimiter"@,
        "nHeaderLines"@,
    ]
}

pub open spec fn spec_table_1d_fields() -> Seq<Seq<char>> {
    seq![
        "tableName"@,
        "fileName"@,
        "table"@,
        "columns"@,
        "smoothness"@,
        "extrapolation"@,
        "verboseRead"@,
        "delimiter"@,
        "nHeaderLines"@,
    ]
}

impl ExternalTableRecordKind {
    pub open spec fn spec_constructor_name(self) -> Seq<char> {
        match self {
            ExternalTableRecordKind::CombiTimeTable => "Modelica.Blocks.Types.ExternalCombiTimeTable"@,
            ExternalTableRecordKind::CombiTable1D => "Modelica.Blocks.Types.ExternalCombiTable1D"@,
        }
    }

    /// The record fields, in declaration order, that a flattened table
    /// record passes as separate arguments.
    pub open spec fn spec_field_names(self) -> Seq<Seq<char>> {
        match self {
            ExternalTableRecordKind::CombiTimeTable => spec_time_table_fields(),
            ExternalTableRecordKind::CombiTable1D => spec_table_1d_fields(),
        }
    }

    /// The name of the table object's record constructor.
    pub fn constructor_name(self) -> (name: &'static str)
        ensures
            name@ == self.spec_constructor_name(),
    {
        match self {
            ExternalTableRecordKind::CombiTimeTable => "Modelica.Blocks.Types.ExternalCombiTimeTable",
            ExternalTableRecordKind::CombiTable1D => "Modelica.Blocks.Types.ExternalCombiTable1D",
        }
    }

    /// The record fields, in declaration order.
    pub fn flattened_field_names(self) -> (names: Vec<&'static str>)
        ensures
            names@.map_values(|n: &str| n@) == self.spec_field_names(),
    {
        let mut names: Vec<&'static str> = Vec::new();
        match self {
            ExternalTableRecordKind::CombiTimeTable => {
                names.push("tableName");
                names.push("fileName");
                names.push("table");
                names.push("startTime");
                names.push("columns");
                names.push("smoothness");
                names.push("extrapolation");
                names.push("shiftTime");
                names.push("timeEvents");
                names.push("verboseRead");
                names.push("delimiter");
                names.push("nHeaderLines");
            },
            ExternalTableRecordKind::CombiTable1D => {
                names.push("tableName");
                names.push("fileName");
                names.push("table");
                names.push("columns");
                names.push("smoothness");
                names.push("extrapolation");
                names.push("verboseRead");
                names.push("delimiter");
                names.push("nHeaderLines");
            },
        }
        proof {
            assert(names@.map_values(|n: &str| n@) =~= self.spec_field_names());
        }
        names
    }

    /// How many fields a flattened table record passes.
    pub fn flattened_field_count(self) -> (n: usize)
        ensures
            n == self.spec_field_names().len(),
    {
        match self {
            ExternalTableRecordKind::CombiTimeTable => 12,
            ExternalTableRecordKind::CombiTable1D => 9,
        }
    }
}

/// The intrinsic behind the last path segment of a table-library call.
pub open spec fn spec_table_intrinsic_of(short: Seq<char>) -> Option<ExternalTableIntrinsicKind> {
    if short == "getTimeTableTmin"@ {
        Some(
            ExternalTableIntrinsicKind::Bounds {
                table: ExternalTableRecordKind::CombiTimeTable,
                upper: false,
            },
        )
    } else if short == "getTable1DAbscissaUmin"@ {
        Some(
            ExternalTableIntrinsicKind::Bounds {
                table: ExternalTableRecordKind::CombiTable1D,
                upper: false,
            },
        )
    } else if short == "getTimeTableTmax"@ {
        Some(
            ExternalTableIntrinsicKind::Bounds {
                table: ExternalTableRecordKind::CombiTimeTable,
                upper: true,
            },
        )
    } else if short == "getTable1DAbscissaUmax"@ {
        Some(
            ExternalTableIntrinsicKind::Bounds {
                table: ExternalTableRecordKind::CombiTable1D,
                upper: true,
            },
        )
    } else if short == "getTimeTableValueNoDer"@ || short == "getTimeTableValueNoDer2"@ || short
        == "getTimeTableValue"@ {
        Some(ExternalTableIntrinsicKind::Lookup { table: ExternalTableRecordKind::CombiTimeTable })
    } else if short == "getTable1DValueNoDer"@ || short == "getTable1DValueNoDer2"@ || short
        == "getTable1DValue"@ {
        Some(ExternalTableIntrinsicKind::Lookup { table: ExternalTableRecordKind::CombiTable1D })
    } else if short == "getNextTimeEvent"@ {
        Some(
            ExternalTableIntrinsicKind::NextEvent { table: ExternalTableRecordKind::CombiTimeTable },
        )
    } else {
        None
    }
}

/// The short name that selects a table intrinsic: projections `f.y` of an
/// intrinsic's output name the intrinsic `f`.
pub open spec fn spec_table_call_short_name(call_name: Seq<char>) -> Seq<char> {
    if exists|k: int| is_last_scope_dot(call_name, k) && call_name.skip(k + 1) == "y"@ {
        let k = choose|k: int| is_last_scope_dot(call_name, k) && call_name.skip(k + 1) == "y"@;
        spec_leaf_segment(call_name.take(k))
    } else {
        spec_leaf_segment(call_name)
    }
}

/// A simple identifier holds no scope dot and leaves nothing open.
proof fn lemma_simple_identifier_scan(s: Seq<char>)
    requires
        is_simple_identifier(s),
    ensures
        !has_scope_dot(s),
        path_scan(s) == (0int, false),
{
    lemma_scan_plain(s);
    assert forall|i: int| !is_scope_dot(s, i) by {
        if 0 <= i < s.len() {
            assert(s[i] != '.');
        }
    }
}

/// A table intrinsic is selected by its last path segment alone: the
/// same simple name `s` (other than `y`) selects the same intrinsic bare,
/// behind any package path `q`, and with the output projection `.y`
/// appended.
pub proof fn law_table_intrinsic_ignores_qualification(q: Seq<char>, s: Seq<char>)
    requires
        path_scan(q) == (0int, false),
        is_simple_identifier(s),
        s != "y"@,
    ensures
        spec_table_call_short_name(q + "."@ + s) == s,
        spec_table_call_short_name(q + "."@ + s + ".y"@) == s,
        spec_table_call_short_name(s) == s,
        spec_table_intrinsic_of(spec_table_call_short_name(q + "."@ + s)) == spec_table_intrinsic_of(
            spec_table_call_short_name(s),
        ),
        spec_table_intrinsic_of(spec_table_call_short_name(q + "."@ + s + ".y"@))
            == spec_table_intrinsic_of(spec_table_call_short_name(s)),
{
    reveal_strlit(".");
    reveal_strlit(".y");
    reveal_strlit("y");
    lemma_simple_identifier_scan(s);
    assert("."@ =~= seq!['.']);
    let n1 = q + "."@ + s;
    lemma_leaf_after_scope_dot(q, s);
    assert(n1 =~= q + seq!['.'] + s);
    assert(!(exists|k: int| is_last_scope_dot(n1, k) && n1.skip(k + 1) == "y"@)) by {
        if exists|k: int| is_last_scope_dot(n1, k) && n1.skip(k + 1) == "y"@ {
            let k = choose|k: int| is_last_scope_dot(n1, k) && n1.skip(k + 1) == "y"@;
            lemma_last_scope_dot_unique(n1, k, q.len() as int);
            assert(n1.skip(q.len() as int + 1) =~= s);
        }
    }
    assert(!(exists|k: int| is_last_scope_dot(s, k)));
    // the projection `.y` after the name
    let ys = seq!['y'];
    assert(".y"@ =~= seq!['.'] + ys);
    let n2 = n1 + ".y"@;
    assert(n2 =~= n1 + seq!['.'] + ys);
    assert(path_scan(q + seq!['.']) == (0int, false)) by {
        assert((q + seq!['.']).drop_last() =~= q);
    }
    assert(n1 =~= (q + seq!['.']) + s);
    lemma_scan_concat(q + seq!['.'], s);
    assert(!has_scope_dot(ys)) by {
        assert forall|i: int| !is_scope_dot(ys, i) by {
            if 0 <= i < ys.len() {
                assert(ys[i] == 'y');
            }
        }
    }
    lemma_leaf_after_scope_dot(n1, ys);
    assert(n2.skip(n1.len() as int + 1) =~= ys);
    assert(ys == "y"@);
    assert(is_last_scope_dot(n2, n1.len() as int) && n2.skip(n1.len() as int + 1) == "y"@);
    let k = choose|k: int| is_last_scope_dot(n2, k) && n2.skip(k + 1) == "y"@;
    lemma_last_scope_dot_unique(n2, k, n1.len() as int);
    assert(n2.take(k) =~= n1);
}

/// The name of an intrinsic without its package path.
pub fn intrinsic_short_name(name: &str) -> (short: &str)
    ensures
        short@ == spec_leaf_segment(name@),
{
    leaf_segment(name)
}

/// `actualStream` and `inStream` pass their argument through in
/// expression projection.
pub fn is_stream_passthrough_intrinsic(name: &str) -> (b: bool)
    ensures
        b == (spec_leaf_segment(name@) == "actualStream"@ || spec_leaf_segment(name@)
            == "inStream"@),
{
    let short = intrinsic_short_name(name);
    str_eq(short, "actualStream") || str_eq(short, "inStream")
}

/// Position of a `Complex` record field among the constructor arguments.
pub fn constructor_positional_field_index(field: &str) -> (r: Option<usize>)
    ensures
        r == (if field@ == "re"@ {
            Some(0usize)
        } else if field@ == "im"@ {
            Some(1usize)
        } else {
            None
        }),
{
    if str_eq(field, "re") {
        Some(0)
    } else if str_eq(field, "im") {
        Some(1)
    } else {
        None
    }
}

/// The table-library intrinsic called by `call_name`, if any.
pub fn external_table_intrinsic_kind(call_name: &str) -> (r: Option<ExternalTableIntrinsicKind>)
    ensures
        r == spec_table_intrinsic_of(spec_table_call_short_name(call_name@)),
{
    let short_name = match scope_split(call_name) {
        Some((function_name, field)) => {
            if str_eq(field, "y") {
                proof {
                    let k = choose|k: int|
                        is_last_scope_dot(call_name@, k) && call_name@.skip(k + 1) == "y"@;
                    let k2 = choose|k2: int|
                        is_last_scope_dot(call_name@, k2) && function_name@ == call_name@.take(k2)
                            && field@ == call_name@.skip(k2 + 1);
                    assert(k == k2) by {
                        if k < k2 {
                            assert(!crate::paths::is_scope_dot(call_name@, k2));
                        }
                        if k > k2 {
                            assert(!crate::paths::is_scope_dot(call_name@, k));
                        }
                    }
                }
                intrinsic_short_name(function_name)
            } else {
                proof {
                    assert forall|k: int|
                        is_last_scope_dot(call_name@, k) implies call_name@.skip(k + 1) != "y"@ by {
                        let k2 = choose|k2: int|
                            is_last_scope_dot(call_name@, k2) && function_name@ == call_name@.take(
                                k2,
                            ) && field@ == call_name@.skip(k2 + 1);
                        if k < k2 {
                            assert(!crate::paths::is_scope_dot(call_name@, k2));
                        }
                        if k > k2 {
                            assert(!crate::paths::is_scope_dot(call_name@, k));
                        }
                    }
                }
                intrinsic_short_name(call_name)
            }
        },
        None => intrinsic_short_name(call_name),
    };
    if str_eq(short_name, "getTimeTableTmin") {
        Some(
            ExternalTableIntrinsicKind::Bounds {
                table: ExternalTableRecordKind::CombiTimeTable,
                upper: false,
            },
        )
    } else if str_eq(short_name, "getTable1DAbscissaUmin") {
        Some(
            ExternalTableIntrinsicKind::Bounds {
                table: ExternalTableRecordKind::CombiTable1D,
                upper: false,
            },
        )
    } else if str_eq(short_name, "getTimeTableTmax") {
        Some(
            ExternalTableIntrinsicKind::Bounds {
                table: ExternalTableRecordKind::CombiTimeTable,
                upper: true,
            },
        )
    } else if str_eq(short_name, "getTable1DAbscissaUmax") {
        Some(
            ExternalTableIntrinsicKind::Bounds {
                table: ExternalTableRecordKind::CombiTable1D,
                upper: true,
            },
        )
    } else if str_eq(short_name, "getTimeTableValueNoDer") || str_eq(
        short_name,
        "getTimeTableValueNoDer2",
    ) || str_eq(short_name, "getTimeTableValue") {
        Some(ExternalTableIntrinsicKind::Lookup { table: ExternalTableRecordKind::CombiTimeTable })
    } else if str_eq(short_name, "getTable1DValueNoDer") || str_eq(
        short_name,
        "getTable1DValueNoDer2",
    ) || str_eq(short_name, "getTable1DValue") {
        Some(ExternalTableIntrinsicKind::Lookup { table: ExternalTableRecordKind::CombiTable1D })
    } else if str_eq(short_name, "getNextTimeEvent") {
        Some(
            ExternalTableIntrinsicKind::NextEvent { table: ExternalTableRecordKind::CombiTimeTable },
        )
    } else {
        None
    }
}

/// The `Complex` field selected by a projected `Modelica.ComplexMath.sum`
/// call name.
pub fn parse_complex_sum_projection_field(call_name: &str) -> (r: Option<&str>)
    ensures
        match r {
            Some(field) => exists|suffix: Seq<char>|
                call_name@ == "Modelica.ComplexMath.sum."@ + suffix && ((suffix == "re"@
                    || suffix == "result.re"@) && field@ == "re"@ || (suffix == "im"@ || suffix
                    == "result.im"@) && field@ == "im"@),
            None => forall|suffix: Seq<char>|
                call_name@ == "Modelica.ComplexMath.sum."@ + suffix ==> !(suffix == "re"@ || suffix
                    == "im"@ || suffix == "result.re"@ || suffix == "result.im"@),
        },
{
    let prefix = "Modelica.ComplexMath.sum.";
    let suffix = match strip_prefix(call_name, prefix) {
        Some(suffix) => suffix,
        None => {
            proof {
                assert forall|s: Seq<char>| call_name@ == prefix@ + s implies !(s == "re"@ || s
                    == "im"@ || s == "result.re"@ || s == "result.im"@) by {
                    assert(call_name@.take(prefix@.len() as int) =~= prefix@);
                }
            }
            return None;
        },
    };
    proof {
        assert(call_name@ =~= prefix@ + suffix@);
        assert forall|s: Seq<char>| call_name@ == prefix@ + s implies s == suffix@ by {
            assert(s =~= call_name@.skip(prefix@.len() as int));
        }
    }
    if str_eq(suffix, "re") || str_eq(suffix, "im") {
        Some(suffix)
    } else if str_eq(suffix, "result.re") {
        Some("re")
    } else if str_eq(suffix, "result.im") {
        Some("im")
    } else {
        None
    }
}

/// The operator and field of a projected `Complex` operator call such as
/// `Complex.'+'.re`.
pub fn parse_complex_operator_projection(call_name: &str) -> (r: Option<(BinaryOp, &str)>)
    ensures
        match r {
            Some((op, field)) => exists|k: int|
                is_last_scope_dot(call_name@, k) && field@ == call_name@.skip(k + 1) && (field@
                    == "re"@ || field@ == "im"@) && ({
                    let base = call_name@.take(k);
                    (base == "Complex.'+'"@ && op == BinaryOp::Add) || (base == "Complex.'-'"@ && op
                        == BinaryOp::Sub) || (base == "Complex.'*'"@ && op == BinaryOp::Mul) || (
                    base == "Complex.'/'"@ && op == BinaryOp::Div)
                }),
            None => forall|k: int|
                is_last_scope_dot(call_name@, k) ==> !((call_name@.skip(k + 1) == "re"@
                    || call_name@.skip(k + 1) == "im"@) && (call_name@.take(k) == "Complex.'+'"@
                    || call_name@.take(k) == "Complex.'-'"@ || call_name@.take(k)
                    == "Complex.'*'"@ || call_name@.take(k) == "Complex.'/'"@)),
        },
{
    let (base, field) = match scope_split(call_name) {
        Some(parts) => parts,
        None => {
            return None;
        },
    };
    proof {
        let k2 = choose|k2: int|
            is_last_scope_dot(call_name@, k2) && base@ == call_name@.take(k2) && field@
                == call_name@.skip(k2 + 1);
        assert forall|k: int| is_last_scope_dot(call_name@, k) implies k == k2 by {
            if k < k2 {
                assert(!crate::paths::is_scope_dot(call_name@, k2));
            }
            if k > k2 {
                assert(!crate::paths::is_scope_dot(call_name@, k));
            }
        }
    }
    let op = if str_eq(base, "Complex.'+'") {
        BinaryOp::Add
    } else if str_eq(base, "Complex.'-'") {
        BinaryOp::Sub
    } else if str_eq(base, "Complex.'*'") {
        BinaryOp::Mul
    } else if str_eq(base, "Complex.'/'") {
        BinaryOp::Div
    } else {
        return None;
    };
    if str_eq(field, "re") || str_eq(field, "im") {
        Some((op, field))
    } else {
        None
    }
}

pub open spec fn spec_random_intrinsic_kind(name: Seq<char>) -> Option<
    (RandomGenerator, RandomIntrinsicKind),
> {
    if name == "Modelica.Math.Random.Utilities.initialStateWithXorshift64star"@ || name
        == "Modelica.Math.Random.Generators.Xorshift64star.initialState"@ {
        Some((RandomGenerator::Xorshift64Star, RandomIntrinsicKind::InitialState))
    } else if name == "Modelica.Math.Random.Generators.Xorshift128plus.initialState"@ {
        Some((RandomGenerator::Xorshift128Plus, RandomIntrinsicKind::InitialState))
    } else if name == "Modelica.Math.Random.Generators.Xorshift1024star.initialState"@ {
        Some((RandomGenerator::Xorshift1024Star, RandomIntrinsicKind::InitialState))
    } else if name == "Modelica.Math.Random.Generators.Xorshift64star.random"@ {
        Some((RandomGenerator::Xorshift64Star, RandomIntrinsicKind::Random))
    } else if name == "Modelica.Math.Random.Generators.Xorshift128plus.random"@ {
        Some((RandomGenerator::Xorshift128Plus, RandomIntrinsicKind::Random))
    } else if name == "Modelica.Math.Random.Generators.Xorshift1024star.random"@ {
        Some((RandomGenerator::Xorshift1024Star, RandomIntrinsicKind::Random))
    } else {
        None
    }
}

/// The random-number intrinsic called by its fully qualified name.
pub fn random_intrinsic_kind(name: &str) -> (r: Option<(RandomGenerator, RandomIntrinsicKind)>)
    ensures
        r == spec_random_intrinsic_kind(name@),
{
    if str_eq(name, "Modelica.Math.Random.Utilities.initialStateWithXorshift64star") || str_eq(
        name,
        "Modelica.Math.Random.Generators.Xorshift64star.initialState",
    ) {
        Some((RandomGenerator::Xorshift64Star, RandomIntrinsicKind::InitialState))
    } else if str_eq(name, "Modelica.Math.Random.Generators.Xorshift128plus.initialState") {
        Some((RandomGenerator::Xorshift128Plus, RandomIntrinsicKind::InitialState))
    } else if str_eq(name, "Modelica.Math.Random.Generators.Xorshift1024star.initialState") {
        Some((RandomGenerator::Xorshift1024Star, RandomIntrinsicKind::InitialState))
    } else if str_eq(name, "Modelica.Math.Random.Generators.Xorshift64star.random") {
        Some((RandomGenerator::Xorshift64Star, RandomIntrinsicKind::Random))
    } else if str_eq(name, "Modelica.Math.Random.Generators.Xorshift128plus.random") {
        Some((RandomGenerator::Xorshift128Plus, RandomIntrinsicKind::Random))
    } else if str_eq(name, "Modelica.Math.Random.Generators.Xorshift1024star.random") {
        Some((RandomGenerator::Xorshift1024Star, RandomIntrinsicKind::Random))
    } else {
        None
    }
}

pub open spec fn spec_state_len(generator: RandomGenerator) -> usize {
    match generator {
        RandomGenerator::Xorshift64Star => 2,
        RandomGenerator::Xorshift128Plus => 4,
        RandomGenerator::Xorshift1024Star => 33,
    }
}

/// The length of a generator's state vector.
pub fn random_generator_state_len(generator: RandomGenerator) -> (n: usize)
    ensures
        n == spec_state_len(generator),
{
    match generator {
        RandomGenerator::Xorshift64Star => 2,
        RandomGenerator::Xorshift128Plus => 4,
        RandomGenerator::Xorshift1024Star => 33,
    }
}

/// The state length a projection of a random intrinsic reads: the
/// declared (or the generator's) length, widened to cover the projected
/// one-based index.
pub fn random_projection_state_len(
    generator: RandomGenerator,
    declared_len: Option<usize>,
    projected_indices: &[usize],
) -> (n: usize)
    ensures
        ({
            let declared = match declared_len {
                Some(len) => len,
                None => spec_state_len(generator),
            };
            n == (if projected_indices@.len() > 0 && projected_indices@[0] > declared {
                projected_indices@[0]
            } else {
                declared
            })
        }),
{
    let declared = match declared_len {
        Some(len) => len,
        None => random_generator_state_len(generator),
    };
    if projected_indices.len() > 0 && projected_indices[0] > declared {
        projected_indices[0]
    } else {
        declared
    }
}

pub open spec fn spec_energyplus_kind(name: Seq<char>) -> Option<ExternalFunctionKind> {
    if name == "Buildings.ThermalZones.EnergyPlus_9_6_0.BaseClasses.initialize"@ {
        Some(ExternalFunctionKind::BuildingsEnergyPlusInitialize)
    } else if name == "Buildings.ThermalZones.EnergyPlus_9_6_0.BaseClasses.getParameters"@ {
        Some(ExternalFunctionKind::BuildingsEnergyPlusGetParameters)
    } else if name == "Buildings.ThermalZones.EnergyPlus_9_6_0.BaseClasses.exchange"@ {
        Some(ExternalFunctionKind::BuildingsEnergyPlusExchange)
    } else if name == "Buildings.ThermalZones.EnergyPlus_9_6_0.BaseClasses.SpawnExternalObject"@ {
        Some(ExternalFunctionKind::BuildingsEnergyPlusSpawnExternalObject)
    } else {
        None
    }
}

/// The Buildings EnergyPlus coupling function called by its qualified name.
pub fn buildings_energyplus_external_kind(call_name: &str) -> (r: Option<ExternalFunctionKind>)
    ensures
        r == spec_energyplus_kind(call_name@),
{
    if str_eq(call_name, "Buildings.ThermalZones.EnergyPlus_9_6_0.BaseClasses.initialize") {
        Some(ExternalFunctionKind::BuildingsEnergyPlusInitialize)
    } else if str_eq(call_name, "Buildings.ThermalZones.EnergyPlus_9_6_0.BaseClasses.getParameters") {
        Some(ExternalFunctionKind::BuildingsEnergyPlusGetParameters)
    } else if str_eq(call_name, "Buildings.ThermalZones.EnergyPlus_9_6_0.BaseClasses.exchange") {
        Some(ExternalFunctionKind::BuildingsEnergyPlusExchange)
    } else if str_eq(
        call_name,
        "Buildings.ThermalZones.EnergyPlus_9_6_0.BaseClasses.SpawnExternalObject",
    ) {
        Some(ExternalFunctionKind::BuildingsEnergyPlusSpawnExternalObject)
    } else {
        None
    }
}

} // verus!
