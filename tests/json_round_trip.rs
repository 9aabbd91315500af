use keyvalues::{parse_program, Value};
use serde_json::{Number, Value as Json};

fn to_json(value: Value<'_>) -> Json {
    match value {
        Value::Null => Json::Null,
        Value::Bool(b) => Json::Bool(b),
        Value::Float(text) => Json::Number(Number::from_f64(text.parse::<f64>().unwrap()).unwrap()),
        Value::Integer(n) => Json::Number(Number::from(n)),
        Value::String(s) => Json::String(s.to_string()),
        Value::Array(items) => Json::Array(items.into_iter().map(to_json).collect()),
        Value::Object(map) => {
            let mut out = serde_json::Map::new();
            for (k, v) in map.into_entries() {
                out.insert(k.to_string(), to_json(v));
            }
            Json::Object(out)
        }
        Value::Empty => Json::Array(Vec::new()),
    }
}

#[test]
fn parsed_tree_survives_json() {
    let src = "name = \"box\" size = { 1 2 3 } weight = 2.5 on = true none = null \
               parts = { { lid = 1 } { base = 2 } } tags = {}";
    let json = to_json(parse_program(src).unwrap());
    let text = serde_json::to_string(&json).unwrap();
    let back: Json = serde_json::from_str(&text).unwrap();
    assert_eq!(back, json);
    assert_eq!(back["size"], Json::Array(vec![Json::from(1), Json::from(2), Json::from(3)]));
    assert_eq!(back["parts"]["base"], Json::from(2));
    assert_eq!(serde_json::to_string(&back["tags"]).unwrap(), "[]");
}
