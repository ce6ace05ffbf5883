use rs_wgpu_engine::shader::{expand_limited, get_shader_code, replace_include, ShaderLibrary};

fn library() -> ShaderLibrary {
    let mut lib = ShaderLibrary::new();
    lib.insert("copyright".to_string(), "// Copyright (c) engine authors\n".to_string());
    lib.insert(
        "struct_vertex_input".to_string(),
        "struct VertexInput {\n    @location(0) position: vec3<f32>,\n};\n".to_string(),
    );
    lib.insert(
        "basic".to_string(),
        "// #include <copyright>\n// #include <struct_vertex_input>\n@vertex\nfn vs_main(in: VertexInput) -> @builtin(position) vec4<f32> {\n    return vec4<f32>(in.position, 1.0);\n}\n".to_string(),
    );
    lib.insert("test".to_string(), "// test shader\n".to_string());
    lib
}

#[test]
fn test_shader_builder() {
    let lib = library();
    let code = get_shader_code(&lib, "basic".into()).unwrap();
    println!("{}", code);
}

#[test]
fn basic_shader_has_both_includes_expanded() {
    let lib = library();
    let code = get_shader_code(&lib, "basic").unwrap();
    let expected = "// #include <copyright> --start\n// Copyright (c) engine authors\n// #include <copyright> --end\n\n\n\
// #include <struct_vertex_input> --start\nstruct VertexInput {\n    @location(0) position: vec3<f32>,\n};\n// #include <struct_vertex_input> --end\n\n\n\
@vertex\nfn vs_main(in: VertexInput) -> @builtin(position) vec4<f32> {\n    return vec4<f32>(in.position, 1.0);\n}\n";
    assert_eq!(code, expected);
}

#[test]
fn source_without_directive_is_unchanged() {
    let lib = library();
    assert_eq!(replace_include("fn main() -> i32 { 1 }", &lib), "fn main() -> i32 { 1 }");
    assert_eq!(replace_include("", &lib), "");
}

#[test]
fn known_include_is_framed() {
    let mut lib = ShaderLibrary::new();
    lib.insert("x".to_string(), "X".to_string());
    assert_eq!(
        replace_include("a\n// #include <x>\nb", &lib),
        "a\n// #include <x> --start\nX// #include <x> --end\n\n\nb"
    );
}

#[test]
fn unknown_include_gives_error_marker() {
    let lib = ShaderLibrary::new();
    assert_eq!(replace_include("// #include <y>\n", &lib), "include <y> --error\n\n\n");
}

#[test]
fn nested_includes_are_expanded() {
    let mut lib = ShaderLibrary::new();
    lib.insert("inner".to_string(), "I".to_string());
    lib.insert("outer".to_string(), "<// #include <inner>>".to_string());
    assert_eq!(
        get_shader_code(&lib, "outer").unwrap(),
        "<// #include <inner> --start\nI// #include <inner> --end\n\n>"
    );
}

#[test]
fn missing_name_gives_none() {
    let lib = library();
    assert!(get_shader_code(&lib, "missing").is_none());
}

#[test]
fn insert_replaces_source() {
    let mut lib = ShaderLibrary::new();
    lib.insert("a".to_string(), "1".to_string());
    lib.insert("a".to_string(), "2".to_string());
    assert_eq!(lib.get(&"a".to_string()).unwrap(), "2");
    assert_eq!(get_shader_code(&lib, "a").unwrap(), "2");
}

#[test]
fn unclosed_directive_has_no_expansion() {
    let lib = library();
    assert!(expand_limited("text // #include <copyright", &lib, 10).is_none());
}

#[test]
fn depth_limit_stops_cyclic_includes() {
    let mut lib = ShaderLibrary::new();
    lib.insert("a".to_string(), "// #include <a>".to_string());
    assert!(expand_limited("// #include <a>", &lib, 3).is_none());
    assert!(expand_limited("// #include <a>", &lib, 0).is_none());
}

#[test]
fn depth_limit_is_enough_for_finite_chains() {
    let mut lib = ShaderLibrary::new();
    lib.insert("b".to_string(), "B".to_string());
    lib.insert("a".to_string(), "// #include <b>".to_string());
    assert!(expand_limited("// #include <a>", &lib, 1).is_none());
    let two = expand_limited("// #include <a>", &lib, 2).unwrap();
    assert_eq!(two, replace_include("// #include <a>", &lib));
    assert_eq!(
        two,
        "// #include <a> --start\n// #include <b> --start\nB// #include <b> --end\n\n// #include <a> --end\n\n"
    );
    assert_eq!(expand_limited("plain", &lib, 0).unwrap(), "plain");
}

#[test]
fn closing_bracket_before_directive_is_ignored() {
    let mut lib = ShaderLibrary::new();
    lib.insert("x".to_string(), "X".to_string());
    assert_eq!(
        replace_include("a -> b\n// #include <x>\n// #include <y>\n", &lib),
        "a -> b\n// #include <x> --start\nX// #include <x> --end\n\n\ninclude <y> --error\n\n\n"
    );
}
