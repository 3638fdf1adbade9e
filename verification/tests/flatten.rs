use j2a::classify::convert;
use j2a::json::JsonValue;

fn obj(fields: Vec<(&str, JsonValue)>) -> JsonValue {
    JsonValue::Obj(fields.into_iter().map(|(k, v)| (k.to_string(), v)).collect())
}

fn s(text: &str) -> JsonValue {
    JsonValue::Str(text.to_string())
}

#[test]
fn scenario_nested_object() {
    let v = obj(vec![("a", obj(vec![("b", s("c"))]))]);
    let (cs, env) = convert(&v);
    assert_eq!(cs.len(), 0);
    assert_eq!(env.len(), 1);
    assert_eq!(env[0].name, "a:b");
    assert_eq!(env[0].value, "c");
    assert!(env[0].slot_setting);
}

#[test]
fn scenario_connection_strings() {
    let v = obj(vec![("ConnectionStrings", obj(vec![("Default", s("Server=x"))]))]);
    let (cs, env) = convert(&v);
    assert_eq!(env.len(), 0);
    assert_eq!(cs.len(), 1);
    assert_eq!(cs[0].name, "Default");
    assert_eq!(cs[0].value, "Server=x");
    assert!(cs[0].slot_setting);
}

#[test]
fn scenario_root_array() {
    let v = JsonValue::Arr(vec![
        JsonValue::Num("1".to_string()),
        JsonValue::Bool(true),
        JsonValue::Null,
    ]);
    let (cs, env) = convert(&v);
    assert_eq!(cs.len(), 0);
    assert_eq!(env.len(), 3);
    assert_eq!(env[0].name, ":0");
    assert_eq!(env[0].value, "1");
    assert_eq!(env[1].name, ":1");
    assert_eq!(env[1].value, "true");
    assert_eq!(env[2].name, ":2");
    assert_eq!(env[2].value, "null");
}

#[test]
fn boundary_empty_object() {
    let v = JsonValue::Obj(vec![]);
    let (cs, env) = convert(&v);
    assert_eq!(cs.len(), 0);
    assert_eq!(env.len(), 0);
}

#[test]
fn boundary_empty_array() {
    let v = JsonValue::Arr(vec![]);
    let (cs, env) = convert(&v);
    assert_eq!(cs.len(), 0);
    assert_eq!(env.len(), 0);
}

#[test]
fn converts_to_azure_syntax() {
    let v = obj(vec![
        ("ConnectionStrings", obj(vec![("SomeConnectionString", s("my-stringy-value"))])),
        (
            "Serilog",
            obj(vec![
                ("MinimumLevel", obj(vec![("Default", s("Information"))])),
                (
                    "WriteTo",
                    JsonValue::Arr(vec![obj(vec![("Name", s("Console"))])]),
                ),
            ]),
        ),
    ]);
    let (cs, env) = convert(&v);
    assert_eq!(cs.len(), 1);
    assert_eq!(cs[0].name, "SomeConnectionString");
    assert_eq!(cs[0].value, "my-stringy-value");
    assert!(cs[0].slot_setting);
    assert_eq!(env.len(), 2);
    assert_eq!(env[0].name, "Serilog:MinimumLevel:Default");
    assert_eq!(env[0].value, "Information");
    assert_eq!(env[1].name, "Serilog:WriteTo:0:Name");
    assert_eq!(env[1].value, "Console");
}

#[test]
fn entry_count_matches_leaf_count() {
    let v = obj(vec![
        ("a", s("x")),
        ("b", JsonValue::Arr(vec![JsonValue::Num("7".to_string()), JsonValue::Null])),
        ("ConnectionStrings", obj(vec![("Db", s("Server=y"))])),
        ("empty", JsonValue::Obj(vec![])),
    ]);
    let (cs, env) = convert(&v);
    // four scalar leaves in the tree, none for the empty object
    assert_eq!(cs.len() + env.len(), 4);
}

#[test]
fn same_input_same_output() {
    let v = obj(vec![
        ("a", obj(vec![("b", s("c"))])),
        ("ConnectionStrings", obj(vec![("Default", s("Server=x"))])),
    ]);
    let (cs1, env1) = convert(&v);
    let (cs2, env2) = convert(&v);
    assert_eq!(cs1.len(), cs2.len());
    assert_eq!(env1.len(), env2.len());
    for (a, b) in cs1.iter().zip(cs2.iter()) {
        assert_eq!(a.name, b.name);
        assert_eq!(a.value, b.value);
        assert_eq!(a.slot_setting, b.slot_setting);
    }
    for (a, b) in env1.iter().zip(env2.iter()) {
        assert_eq!(a.name, b.name);
        assert_eq!(a.value, b.value);
        assert_eq!(a.slot_setting, b.slot_setting);
    }
}

#[test]
fn number_under_connection_strings_stays_general() {
    // only string leaves are routed; other scalars keep the full path
    let v = obj(vec![("ConnectionStrings", obj(vec![("n", JsonValue::Num("5".to_string()))]))]);
    let (cs, env) = convert(&v);
    assert_eq!(cs.len(), 0);
    assert_eq!(env.len(), 1);
    assert_eq!(env[0].name, "ConnectionStrings:n");
    assert_eq!(env[0].value, "5");
}

#[test]
fn bare_connection_strings_key_is_not_stripped() {
    // the marker with the separator never occurs, so the strip is a no-op
    let v = obj(vec![("ConnectionStrings", s("whole"))]);
    let (cs, env) = convert(&v);
    assert_eq!(env.len(), 0);
    assert_eq!(cs.len(), 1);
    assert_eq!(cs[0].name, "ConnectionStrings");
    assert_eq!(cs[0].value, "whole");
}

#[test]
fn root_scalar_has_empty_name() {
    let v = s("alone");
    let (cs, env) = convert(&v);
    assert_eq!(cs.len(), 0);
    assert_eq!(env.len(), 1);
    assert_eq!(env[0].name, "");
    assert_eq!(env[0].value, "alone");
}

#[test]
fn array_indices_render_in_decimal() {
    let elems: Vec<JsonValue> = (0..12).map(|i| JsonValue::Num(i.to_string())).collect();
    let v = obj(vec![("xs", JsonValue::Arr(elems))]);
    let (cs, env) = convert(&v);
    assert_eq!(cs.len(), 0);
    assert_eq!(env.len(), 12);
    assert_eq!(env[10].name, "xs:10");
    assert_eq!(env[11].name, "xs:11");
    assert_eq!(env[11].value, "11");
}
