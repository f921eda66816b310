//! Typed random variables for POST responses: `uuid`, `integer` and
//! `string` declarations, misconfiguration warnings, and the map of
//! generated values.

use vstd::prelude::*;
use crate::json::{JsonValue, SpecJson};
use crate::maps::JsonMap;
use crate::types::{VariableConfig, VariableConfigV};
use crate::text::{spec_dec_nat, spec_dec_int, u64_dec_chars, i64_dec_chars, str_chars,
    chars_string, push_range};
use crate::pattern::chars_eq;
use crate::placeholder::{Resolver, ResolverModel, spec_substitute, replace_simple_placeholders};

verus! {

// ---------------------------------------------------------------------------
// Trusted items
// ---------------------------------------------------------------------------

/// Relies on `rand::random`: a value drawn from the thread-local generator.
/// Nothing is promised of the result.
pub assume_specification<T>[ rand::random::<T> ]() -> (r: T)
    where
        rand::distributions::Standard: rand::distributions::Distribution<T>,
;

pub open spec fn is_lower_hex(c: char) -> bool {
    ('0' <= c && c <= '9') || ('a' <= c && c <= 'f')
}

/// The canonical hyphenated form of a version-4 UUID.
pub open spec fn spec_uuid_shaped(s: Seq<char>) -> bool {
    &&& s.len() == 36
    &&& s[8] == '-'
    &&& s[13] == '-'
    &&& s[18] == '-'
    &&& s[23] == '-'
    &&& (forall|i: int|
        0 <= i < 36 && i != 8 && i != 13 && i != 18 && i != 23 ==> is_lower_hex(#[trigger] s[i]))
    &&& s[14] == '4'
}

/// Relies on `uuid::Uuid::new_v4` and the hyphenated lowercase `Display`
/// form: 36 characters with hyphens at indices 8, 13, 18 and 23, lowercase
/// hex digits elsewhere, and the version nibble `4` at index 14.
#[verifier::external_body]
fn uuid_v4_string() -> (r: String)
    ensures
        spec_uuid_shaped(r@),
{
    uuid::Uuid::new_v4().to_string()
}

// ---------------------------------------------------------------------------
// Warnings
// ---------------------------------------------------------------------------

/// The warnings that a declaration's unsupported options deserve, in the
/// order they are emitted.
pub open spec fn spec_param_warnings(cfg: VariableConfigV) -> Seq<Seq<char>> {
    if cfg.var_type == "uuid"@ {
        (if cfg.prefix is Some {
            seq![
                "Warning: UUID type doesn't support 'prefix' parameter. Ignoring this parameter."@,
            ]
        } else {
            Seq::empty()
        }) + (if cfg.min is Some {
            seq![
                "Warning: UUID type doesn't support 'min' parameter. Ignoring this parameter."@,
            ]
        } else {
            Seq::empty()
        }) + (if cfg.max is Some {
            seq![
                "Warning: UUID type doesn't support 'max' parameter. Ignoring this parameter."@,
            ]
        } else {
            Seq::empty()
        })
    } else if cfg.var_type == "integer"@ {
        if cfg.prefix is Some {
            seq![
                "Warning: Integer type doesn't support 'prefix' parameter. Ignoring this parameter."@,
            ]
        } else {
            Seq::empty()
        }
    } else if cfg.var_type == "string"@ {
        (if cfg.min is Some {
            seq![
                "Warning: String type doesn't support 'min' parameter. Ignoring this parameter."@,
            ]
        } else {
            Seq::empty()
        }) + (if cfg.max is Some {
            seq![
                "Warning: String type doesn't support 'max' parameter. Ignoring this parameter."@,
            ]
        } else {
            Seq::empty()
        })
    } else {
        if cfg.prefix is Some || cfg.min is Some || cfg.max is Some {
            seq![
                "Warning: Unknown variable type '"@ + cfg.var_type
                    + "'. Parameters may not be supported."@,
            ]
        } else {
            Seq::empty()
        }
    }
}

/// The warning emitted when an integer range is inverted.
pub open spec fn spec_range_warning(min: i64, max: i64) -> Seq<char> {
    "Warning: min value ("@ + spec_dec_int(min as int) + ") is greater than max value ("@
        + spec_dec_int(max as int) + "). Using default range."@
}

pub open spec fn warnings_view(ws: Seq<String>) -> Seq<Seq<char>> {
    Seq::new(ws.len(), |i: int| ws[i]@)
}

/// String equality.
pub fn str_eq(a: &str, b: &str) -> (r: bool)
    ensures
        r == (a@ == b@),
{
    let av = str_chars(a);
    let bv = str_chars(b);
    chars_eq(&av, &bv)
}

fn push_warning(warnings: &mut Vec<String>, text: &str)
    ensures
        warnings_view(final(warnings)@) == warnings_view(old(warnings)@).push(text@),
{
    let w: String = text.to_owned();
    warnings.push(w);
    proof {
        assert(warnings_view(warnings@) =~= warnings_view(old(warnings)@).push(text@));
    }
}

/// Warn about options the declared type does not support.  The warnings are
/// returned so the caller can log them.
pub fn validate_variable_parameters(var_config: &VariableConfig) -> (r: Vec<String>)
    ensures
        warnings_view(r@) == spec_param_warnings(var_config@),
{
    let mut warnings: Vec<String> = Vec::new();
    if str_eq(var_config.var_type.as_str(), "uuid") {
        if var_config.prefix.is_some() {
            push_warning(
                &mut warnings,
                "Warning: UUID type doesn't support 'prefix' parameter. Ignoring this parameter.",
            );
        }
        if var_config.min.is_some() {
            push_warning(
                &mut warnings,
                "Warning: UUID type doesn't support 'min' parameter. Ignoring this parameter.",
            );
        }
        if var_config.max.is_some() {
            push_warning(
                &mut warnings,
                "Warning: UUID type doesn't support 'max' parameter. Ignoring this parameter.",
            );
        }
        proof {
            assert(warnings_view(warnings@) =~= spec_param_warnings(var_config@));
        }
    } else if str_eq(var_config.var_type.as_str(), "integer") {
        if var_config.prefix.is_some() {
            push_warning(
                &mut warnings,
                "Warning: Integer type doesn't support 'prefix' parameter. Ignoring this parameter.",
            );
        }
        proof {
            assert(warnings_view(warnings@) =~= spec_param_warnings(var_config@));
        }
    } else if str_eq(var_config.var_type.as_str(), "string") {
        if var_config.min.is_some() {
            push_warning(
                &mut warnings,
                "Warning: String type doesn't support 'min' parameter. Ignoring this parameter.",
            );
        }
        if var_config.max.is_some() {
            push_warning(
                &mut warnings,
                "Warning: String type doesn't support 'max' parameter. Ignoring this parameter.",
            );
        }
        proof {
            assert(warnings_view(warnings@) =~= spec_param_warnings(var_config@));
        }
    } else {
        if var_config.prefix.is_some() || var_config.min.is_some() || var_config.max.is_some() {
            let mut text = str_chars("Warning: Unknown variable type '");
            let tv = str_chars(var_config.var_type.as_str());
            push_range(&mut text, &tv, 0, tv.len());
            let tail = str_chars("'. Parameters may not be supported.");
            push_range(&mut text, &tail, 0, tail.len());
            let w = chars_string(&text);
            warnings.push(w);
            proof {
                assert(tv@.subrange(0, tv@.len() as int) =~= tv@);
                assert(tail@.subrange(0, tail@.len() as int) =~= tail@);
                assert(warnings_view(warnings@) =~= spec_param_warnings(var_config@));
            }
        } else {
            proof {
                assert(warnings_view(warnings@) =~= spec_param_warnings(var_config@));
            }
        }
    }
    warnings
}

// ---------------------------------------------------------------------------
// Generation
// ---------------------------------------------------------------------------

/// What any generated value for this declaration looks like.
pub open spec fn gen_value_ok(cfg: VariableConfigV, v: SpecJson) -> bool {
    if cfg.var_type == "uuid"@ {
        v matches SpecJson::Str(s) && spec_uuid_shaped(s)
    } else if cfg.var_type == "integer"@ {
        let min = match cfg.min {
            Some(m) => m,
            None => 0,
        };
        let max = match cfg.max {
            Some(m) => m,
            None => i64::MAX,
        };
        if min > max {
            v matches SpecJson::Int(n) && 0 <= n <= u32::MAX
        } else {
            v matches SpecJson::Int(n) && min <= n <= max
        }
    } else if cfg.var_type == "string"@ {
        let prefix = match cfg.prefix {
            Some(p) => p,
            None => Seq::empty(),
        };
        exists|n: u16| v == SpecJson::Str(prefix + "generated_"@ + spec_dec_nat(n as nat))
    } else {
        match cfg.default {
            Some(d) => v == d,
            None => v == SpecJson::Str("default"@),
        }
    }
}

/// All warnings of one generation: the option warnings, then the inverted
/// range warning if it applies.
pub open spec fn spec_gen_warnings(cfg: VariableConfigV) -> Seq<Seq<char>> {
    spec_param_warnings(cfg) + (if cfg.var_type == "integer"@ && (match cfg.min {
        Some(m) => m,
        None => 0,
    }) > (match cfg.max {
        Some(m) => m,
        None => i64::MAX,
    }) {
        seq![
            spec_range_warning(
                match cfg.min {
                    Some(m) => m,
                    None => 0,
                },
                match cfg.max {
                    Some(m) => m,
                    None => i64::MAX,
                },
            ),
        ]
    } else {
        Seq::empty()
    })
}

/// Produce a fresh value for one declaration, appending any warnings.
#[verifier::rlimit(60)]
pub fn generate_variable_value(var_config: &VariableConfig, warnings: &mut Vec<String>) -> (r:
    JsonValue)
    ensures
        gen_value_ok(var_config@, r@),
        warnings_view(final(warnings)@) == warnings_view(old(warnings)@) + spec_gen_warnings(
            var_config@,
        ),
{
    let mut ws = validate_variable_parameters(var_config);
    let ghost mid = warnings_view(warnings@) + spec_param_warnings(var_config@);
    let mut i: usize = 0;
    let n = ws.len();
    while i < n
        invariant
            i <= n,
            n == ws@.len(),
            warnings_view(ws@) == spec_param_warnings(var_config@),
            warnings_view(warnings@) == warnings_view(old(warnings)@) + warnings_view(
                ws@,
            ).subrange(0, i as int),
        decreases n - i,
    {
        let w = ws[i].clone();
        let ghost prev = warnings_view(warnings@);
        warnings.push(w);
        proof {
            assert(warnings_view(warnings@) =~= prev.push(ws@[i as int]@));
            assert(warnings_view(ws@)[i as int] == ws@[i as int]@);
            assert(prev.push(ws@[i as int]@) =~= warnings_view(old(warnings)@)
                + warnings_view(ws@).subrange(0, i + 1 as int));
        }
        i = i + 1;
    }
    proof {
        assert(warnings_view(ws@).subrange(0, n as int) =~= warnings_view(ws@));
        assert(warnings_view(warnings@) =~= mid);
    }

    if str_eq(var_config.var_type.as_str(), "uuid") {
        let s = uuid_v4_string();
        proof {
            reveal_strlit("uuid");
            reveal_strlit("integer");
            assert("uuid"@.len() != "integer"@.len());
            assert(warnings_view(warnings@) == mid);
            assert(warnings_view(warnings@) =~= warnings_view(old(warnings)@)
                + spec_gen_warnings(var_config@));
        }
        JsonValue::Str(s)
    } else if str_eq(var_config.var_type.as_str(), "integer") {
        let min: i64 = match var_config.min {
            Some(m) => m,
            None => 0,
        };
        let max: i64 = match var_config.max {
            Some(m) => m,
            None => i64::MAX,
        };
        if min > max {
            let ghost prev2 = warnings_view(warnings@);
            let rw = range_warning_string(min, max);
            warnings.push(rw);
            proof {
                assert(prev2 == mid);
                assert(warnings_view(warnings@) =~= prev2.push(spec_range_warning(min, max)));
                assert(warnings_view(warnings@) =~= warnings_view(old(warnings)@)
                    + spec_gen_warnings(var_config@)) by {
                    assert(spec_gen_warnings(var_config@) =~= spec_param_warnings(
                        var_config@,
                    ).push(spec_range_warning(min, max)));
                    assert(warnings_view(warnings@) =~= (warnings_view(old(warnings)@)
                        + spec_param_warnings(var_config@)).push(
                        spec_range_warning(min, max),
                    ));
                }
            }
            let v: u32 = rand::random::<u32>();
            JsonValue::Int(v as i64)
        } else {
            proof {
                assert(warnings_view(warnings@) == mid);
                assert(warnings_view(warnings@) =~= warnings_view(old(warnings)@)
                    + spec_gen_warnings(var_config@));
            }
            let range: u64 = ((max as i128) - (min as i128)) as u64;
            if range == 0 {
                JsonValue::Int(min)
            } else {
                let raw: u64 = rand::random::<u64>();
                let off: u64 = raw % range;
                let val: i64 = ((min as i128) + (off as i128)) as i64;
                JsonValue::Int(val)
            }
        }
    } else if str_eq(var_config.var_type.as_str(), "string") {
        proof {
            assert(warnings_view(warnings@) == mid);
            assert(warnings_view(warnings@) =~= warnings_view(old(warnings)@)
                + spec_gen_warnings(var_config@));
        }
        let n16: u16 = rand::random::<u16>();
        let mut text: Vec<char> = Vec::new();
        match &var_config.prefix {
            Some(p) => {
                let pv = str_chars(p.as_str());
                push_range(&mut text, &pv, 0, pv.len());
                proof {
                    assert(pv@.subrange(0, pv@.len() as int) =~= pv@);
                }
            },
            None => {},
        }
        let gen = str_chars("generated_");
        push_range(&mut text, &gen, 0, gen.len());
        let digits = u64_dec_chars(n16 as u64);
        push_range(&mut text, &digits, 0, digits.len());
        let r = JsonValue::Str(chars_string(&text));
        proof {
            assert(gen@.subrange(0, gen@.len() as int) =~= gen@);
            assert(digits@.subrange(0, digits@.len() as int) =~= digits@);
            let prefix = match var_config@.prefix {
                Some(p) => p,
                None => Seq::<char>::empty(),
            };
            assert(text@ =~= prefix + "generated_"@ + spec_dec_nat(n16 as nat));
        }
        r
    } else {
        proof {
            assert(warnings_view(warnings@) == mid);
            assert(warnings_view(warnings@) =~= warnings_view(old(warnings)@)
                + spec_gen_warnings(var_config@));
        }
        match &var_config.default {
            Some(d) => d.deep_clone(),
            None => JsonValue::Str("default".to_owned()),
        }
    }
}

fn range_warning_string(min: i64, max: i64) -> (r: String)
    ensures
        r@ == spec_range_warning(min, max),
{
    let mut text = str_chars("Warning: min value (");
    let minv = i64_dec_chars(min);
    push_range(&mut text, &minv, 0, minv.len());
    let mid = str_chars(") is greater than max value (");
    push_range(&mut text, &mid, 0, mid.len());
    let maxv = i64_dec_chars(max);
    push_range(&mut text, &maxv, 0, maxv.len());
    let tail = str_chars("). Using default range.");
    push_range(&mut text, &tail, 0, tail.len());
    proof {
        assert(minv@.subrange(0, minv@.len() as int) =~= minv@);
        assert(mid@.subrange(0, mid@.len() as int) =~= mid@);
        assert(maxv@.subrange(0, maxv@.len() as int) =~= maxv@);
        assert(tail@.subrange(0, tail@.len() as int) =~= tail@);
        assert(text@ =~= spec_range_warning(min, max));
    }
    chars_string(&text)
}

// ---------------------------------------------------------------------------
// The generated-variable map
// ---------------------------------------------------------------------------

/// `g` is a possible outcome of generating the declarations in order, a
/// later declaration of the same name shadowing an earlier one.
pub open spec fn spec_gen_ok(
    vars: Seq<(Seq<char>, VariableConfigV)>,
    g: Map<Seq<char>, SpecJson>,
) -> bool
    decreases vars.len(),
{
    if vars.len() == 0 {
        g == Map::<Seq<char>, SpecJson>::empty()
    } else {
        exists|g0: Map<Seq<char>, SpecJson>, v: SpecJson|
            {
                &&& spec_gen_ok(vars.subrange(0, vars.len() - 1), g0)
                &&& gen_value_ok(vars[vars.len() - 1].1, v)
                &&& g == #[trigger] g0.insert(vars[vars.len() - 1].0, v)
            }
    }
}

/// The warnings of generating the declarations in order.
pub open spec fn spec_all_warnings(vars: Seq<(Seq<char>, VariableConfigV)>) -> Seq<Seq<char>>
    decreases vars.len(),
{
    if vars.len() == 0 {
        Seq::empty()
    } else {
        spec_all_warnings(vars.subrange(0, vars.len() - 1)) + spec_gen_warnings(
            vars[vars.len() - 1].1,
        )
    }
}

/// The pairs view of a declaration list.
pub open spec fn vars_view(vs: Seq<(String, VariableConfig)>) -> Seq<
    (Seq<char>, VariableConfigV),
> {
    Seq::new(vs.len(), |i: int| (vs[i].0@, vs[i].1@))
}

/// Generate every declared variable, in order, appending all warnings.
#[verifier::rlimit(60)]
pub fn generate_variables(variables: &Vec<(String, VariableConfig)>, warnings: &mut Vec<String>)
    -> (g: JsonMap)
    ensures
        spec_gen_ok(vars_view(variables@), g@),
        warnings_view(final(warnings)@) == warnings_view(old(warnings)@) + spec_all_warnings(
            vars_view(variables@),
        ),
{
    let ghost vv = vars_view(variables@);
    let mut g = JsonMap::new();
    let mut i: usize = 0;
    while i < variables.len()
        invariant
            i <= variables@.len(),
            vv == vars_view(variables@),
            vv.len() == variables@.len(),
            spec_gen_ok(vv.subrange(0, i as int), g@),
            warnings_view(warnings@) == warnings_view(old(warnings)@) + spec_all_warnings(
                vv.subrange(0, i as int),
            ),
        decreases variables@.len() - i,
    {
        let ghost g0 = g@;
        let name = variables[i].0.clone();
        let value = generate_variable_value(&variables[i].1, warnings);
        let ghost valv = value@;
        g.insert(name, value);
        proof {
            let pre = vv.subrange(0, i as int);
            let cur = vv.subrange(0, i + 1 as int);
            assert(cur.subrange(0, cur.len() - 1) =~= pre);
            assert(cur[cur.len() - 1] == vv[i as int]);
            assert(vv[i as int] == (variables@[i as int].0@, variables@[i as int].1@));
            assert(spec_gen_ok(cur, g@)) by {
                assert(cur.len() > 0);
                assert(spec_gen_ok(cur.subrange(0, cur.len() - 1), g0));
                assert(gen_value_ok(cur[cur.len() - 1].1, valv));
                assert(g@ == g0.insert(cur[cur.len() - 1].0, valv));
            }
            assert(spec_all_warnings(cur) =~= spec_all_warnings(pre) + spec_gen_warnings(
                vv[i as int].1,
            ));
        }
        i = i + 1;
    }
    proof {
        assert(vv.subrange(0, vv.len() as int) =~= vv);
    }
    g
}

/// Substitute generated variables into a tree: each `{name}` token is looked
/// up directly in the map.
pub fn replace_variables_in_value(value: &JsonValue, variables: &JsonMap) -> (r: JsonValue)
    ensures
        r@ == spec_substitute(value@, ResolverModel::Variables(variables@)),
{
    let resolver = Resolver::Variables(variables);
    replace_simple_placeholders(value, &resolver)
}

} // verus!
