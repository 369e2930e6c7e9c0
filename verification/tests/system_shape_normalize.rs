use serde_json::Value;
use trimwire::json::Json;
use trimwire::strategies::system_shape_normalize;

fn obj(members: Vec<(&str, Value)>) -> Value {
    Value::Object(members.into_iter().map(|(k, x)| (k.to_owned(), x)).collect())
}

fn list(items: Vec<Value>) -> Value {
    Value::Array(items)
}

fn js<T: Into<Value>>(x: T) -> Value {
    x.into()
}

fn to_json(value: &Value) -> Json {
    Json::parse(value.to_string().as_bytes()).unwrap()
}

fn to_value(json: &Json) -> Value {
    serde_json::from_str(&json.to_text()).unwrap()
}

fn normalize(root: &mut Value) -> bool {
    let mut body = to_json(root);
    let changed = system_shape_normalize::normalize(&mut body);
    *root = to_value(&body);
    changed
}

#[test]
fn lifts_stray_system_to_top_level() {
    let mut root = obj(vec![
        ("model", js("model-a")),
        ("messages", list(vec![
            obj(vec![("role", js("system")), ("content", js("you are helpful"))]),
            obj(vec![("role", js("user")), ("content", js("hi"))]),
        ])),
    ]);
    assert!(normalize(&mut root), "should normalize the malformed shape");
    assert_eq!(root["system"], js("you are helpful"), "content lifted");
    let msgs = root["messages"].as_array().unwrap();
    assert_eq!(msgs.len(), 1, "stray system message removed");
    assert_eq!(
        msgs[0]["role"],
        js("user"),
        "first message is now the user turn"
    );
}

#[test]
fn array_system_content_is_lifted_verbatim() {
    let mut root = obj(vec![
        ("messages", list(vec![
            obj(vec![
                ("role", js("system")),
                ("content", list(vec![obj(vec![("type", js("text")), ("text", js("sys"))])])),
            ]),
            obj(vec![("role", js("user")), ("content", js("hi"))]),
        ])),
    ]);
    assert!(normalize(&mut root));
    assert_eq!(root["system"], list(vec![obj(vec![("type", js("text")), ("text", js("sys"))])]));
}

#[test]
fn does_not_clobber_existing_top_level_system() {
    let mut root = obj(vec![
        ("system", js("real system")),
        ("messages", list(vec![
            obj(vec![("role", js("system")), ("content", js("stray"))]),
            obj(vec![("role", js("user")), ("content", js("hi"))]),
        ])),
    ]);
    assert!(!normalize(&mut root), "both-present case is left untouched");
    assert_eq!(
        root["system"],
        js("real system"),
        "existing system unchanged"
    );
    assert_eq!(
        root["messages"].as_array().unwrap().len(),
        2,
        "nothing removed"
    );
}

#[test]
fn well_formed_body_is_untouched() {
    let mut root = obj(vec![
        ("system", js("sys")),
        ("messages", list(vec![
            obj(vec![("role", js("user")), ("content", js("hi"))]),
            obj(vec![("role", js("assistant")), ("content", js("yo"))]),
        ])),
    ]);
    let before = root.clone();
    assert!(!normalize(&mut root), "no malformed shape → no-op");
    assert_eq!(root, before);
}

#[test]
fn no_top_level_system_and_well_formed_is_untouched() {
    let mut root = obj(vec![
        ("messages", list(vec![obj(vec![("role", js("user")), ("content", js("hi"))])])),
    ]);
    let before = root.clone();
    assert!(!normalize(&mut root));
    assert_eq!(root, before);
}

#[test]
fn stray_system_only_is_left_untouched_never_empties_messages() {
    // If the stray system is the ONLY message, removing it would leave an
    // empty messages[] (itself a 400) — so refuse to normalize.
    let mut root = obj(vec![
        ("messages", list(vec![obj(vec![("role", js("system")), ("content", js("sys"))])])),
    ]);
    let before = root.clone();
    assert!(
        !normalize(&mut root),
        "stray-system-only body left untouched"
    );
    assert_eq!(root, before, "messages[] not emptied");
}

#[test]
fn content_less_stray_system_is_left_untouched() {
    // A role:"system" entry with NO content field: lifting it would write a
    // null top-level system (itself a 400), so leave the body untouched.
    let mut root = obj(vec![
        ("messages", list(vec![
            obj(vec![("role", js("system"))]),
            obj(vec![("role", js("user")), ("content", js("hi"))]),
        ])),
    ]);
    let before = root.clone();
    assert!(!normalize(&mut root), "content-less stray left untouched");
    assert_eq!(root, before, "no system:null written, no message removed");
}

#[test]
fn system_shape_normalize_idempotent() {
    let mut root = obj(vec![
        ("messages", list(vec![
            obj(vec![("role", js("system")), ("content", js("sys"))]),
            obj(vec![("role", js("user")), ("content", js("hi"))]),
        ])),
    ]);
    assert!(normalize(&mut root), "first pass normalizes");
    assert!(!normalize(&mut root), "second pass is a no-op");
    assert_eq!(root["system"], js("sys"));
    assert_eq!(root["messages"].as_array().unwrap().len(), 1);
}
