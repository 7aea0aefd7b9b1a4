use brainrot::paths::{parent_dir, resolve_include_path, rooted_path};
use brainrot::shader::expand_includes;
use brainrot::text::{chars_of, replace_text, string_of};
use brainrot::{Shader, ShaderBuilder, ShaderError, SourceRepository};

fn repo_of(files: &[(&str, &str)]) -> SourceRepository {
    let mut repo = SourceRepository::new();
    for (path, source) in files {
        repo.add(path.to_string(), source.to_string()).unwrap();
    }
    repo
}

fn build(builder: &mut ShaderBuilder, repo: &SourceRepository) -> Result<String, ShaderError> {
    builder.build_source(repo)
}

#[test]
fn same_path_twice_is_included_once() {
    let repo = repo_of(&[("/c.shader", "C")]);
    let mut b = ShaderBuilder::new();
    b.include_path("/c.shader".to_string());
    b.include_path("/c.shader".to_string());
    assert_eq!(build(&mut b, &repo).unwrap(), "C");
}

#[test]
fn shared_file_through_two_files_is_included_once_at_first_place() {
    let repo = repo_of(&[
        ("/a.shader", "A1\n#include \"c.shader\"\nA2"),
        ("/b.shader", "B1\n#include \"c.shader\"\nB2"),
        ("/c.shader", "C"),
    ]);
    let mut b = ShaderBuilder::new();
    b.include_path("/a.shader".to_string());
    b.include_path("/b.shader".to_string());
    assert_eq!(build(&mut b, &repo).unwrap(), "A1\nC\nA2B1\n\nB2");
}

#[test]
fn self_include_expands_to_nothing() {
    let repo = repo_of(&[("/a.shader", "top\n#include \"a.shader\"\nbottom")]);
    let mut b = ShaderBuilder::new();
    b.include_path("/a.shader".to_string());
    assert_eq!(build(&mut b, &repo).unwrap(), "top\n\nbottom");
}

#[test]
fn include_is_relative_to_the_including_file() {
    let repo = repo_of(&[("/dir/a.shader", "#include \"b.shader\""), ("/dir/b.shader", "X")]);
    let mut b = ShaderBuilder::new();
    b.include_path("/dir/a.shader".to_string());
    assert_eq!(build(&mut b, &repo).unwrap(), "X");
}

#[test]
fn absolute_and_parent_includes() {
    let repo = repo_of(&[
        ("/dir/a.shader", "#include \"../lib/c.shader\"\n#include \"/top.shader\""),
        ("/lib/c.shader", "C"),
        ("/top.shader", "T"),
    ]);
    let mut b = ShaderBuilder::new();
    b.include_path("/dir/a.shader".to_string());
    assert_eq!(build(&mut b, &repo).unwrap(), "C\nT");
}

#[test]
fn splice_with_longer_text() {
    let repo = repo_of(&[
        ("/a.shader", "before\n#include \"b.shader\"\nafter"),
        ("/b.shader", "BBBBBBBBBBBBBBBBBBBBBBBBBBBBBB"),
    ]);
    let mut b = ShaderBuilder::new();
    b.include_path("/a.shader".to_string());
    assert_eq!(build(&mut b, &repo).unwrap(), "before\nBBBBBBBBBBBBBBBBBBBBBBBBBBBBBB\nafter");
}

#[test]
fn splice_with_shorter_text() {
    let repo = repo_of(&[
        ("/a.shader", "before\n#include \"b.shader\"\nafter"),
        ("/b.shader", "BBBBBBBBBB"),
    ]);
    let mut b = ShaderBuilder::new();
    b.include_path("/a.shader".to_string());
    assert_eq!(build(&mut b, &repo).unwrap(), "before\nBBBBBBBBBB\nafter");
}

#[test]
fn several_includes_in_one_file() {
    let repo = repo_of(&[
        ("/a.shader", "1\n#include \"x.shader\"\n2\n#include \"y.shader\"\n3"),
        ("/x.shader", "a much longer replacement text"),
        ("/y.shader", ""),
    ]);
    let mut b = ShaderBuilder::new();
    b.include_path("/a.shader".to_string());
    assert_eq!(build(&mut b, &repo).unwrap(), "1\na much longer replacement text\n2\n\n3");
}

#[test]
fn defines_apply_longest_key_first() {
    let repo = SourceRepository::new();
    let mut b = ShaderBuilder::new();
    b.include_shader(Shader::Source("#define FOO 1\n#define FOOBAR 2\nFOOBAR FOO".to_string()));
    assert_eq!(build(&mut b, &repo).unwrap(), "\n\n2 1");
}

#[test]
fn explicit_define_wins_over_define_line() {
    let repo = SourceRepository::new();
    let mut b = ShaderBuilder::new();
    b.define("FOO".to_string(), "explicit".to_string());
    b.include_shader(Shader::Source("#define FOO found\nFOO".to_string()));
    assert_eq!(build(&mut b, &repo).unwrap(), "\nexplicit");
}

#[test]
fn first_define_line_wins() {
    let repo = SourceRepository::new();
    let mut b = ShaderBuilder::new();
    b.include_shader(Shader::Source("#define K one\n#define K two\nK".to_string()));
    assert_eq!(build(&mut b, &repo).unwrap(), "\n\none");
}

#[test]
fn define_value_may_hold_spaces_and_bad_lines_stay() {
    let repo = SourceRepository::new();
    let mut b = ShaderBuilder::new();
    b.include_shader(Shader::Source("#define V a b\n#define ONLY\n V".to_string()));
    assert_eq!(build(&mut b, &repo).unwrap(), "\n#define ONLY\n a b");
}

#[test]
fn later_explicit_define_replaces_value() {
    let repo = SourceRepository::new();
    let mut b = ShaderBuilder::new();
    b.define("X".to_string(), "1".to_string());
    b.define("X".to_string(), "2".to_string());
    b.include_shader(Shader::Source("X".to_string()));
    assert_eq!(build(&mut b, &repo).unwrap(), "2");
}

#[test]
fn missing_file_fails() {
    let repo = repo_of(&[("/a.shader", "A")]);
    let mut b = ShaderBuilder::new();
    b.include_path("/a.shader".to_string());
    b.include_path("/missing.shader".to_string());
    assert_eq!(build(&mut b, &repo), Err(ShaderError::FileNotFound("/missing.shader".to_string())));
}

#[test]
fn missing_included_file_fails() {
    let repo = repo_of(&[("/a.shader", "#include \"gone.shader\"")]);
    let mut b = ShaderBuilder::new();
    b.include_path("/a.shader".to_string());
    assert_eq!(build(&mut b, &repo), Err(ShaderError::FileNotFound("/gone.shader".to_string())));
}

#[test]
fn windows_include_path_is_invalid() {
    let repo = repo_of(&[("/a.shader", "#include \"C:\\x.shader\"")]);
    let mut b = ShaderBuilder::new();
    b.include_path("/a.shader".to_string());
    assert_eq!(
        build(&mut b, &repo),
        Err(ShaderError::InvalidIncludePath("C:\\x.shader".to_string()))
    );
}

#[test]
fn equal_builders_build_the_same() {
    let repo = repo_of(&[("/a.shader", "#define N 3\nvalue N\n#include \"b.shader\""), ("/b.shader", "B")]);
    let mut first = ShaderBuilder::new();
    first.include_path("/a.shader".to_string());
    first.define("value".to_string(), "let".to_string());
    let mut second = ShaderBuilder::new();
    second.include_path("/a.shader".to_string());
    second.define("value".to_string(), "let".to_string());
    assert!(first.same_as(&second));
    let a = build(&mut first, &repo).unwrap();
    let b = build(&mut second, &repo).unwrap();
    assert_eq!(a, b);
    assert_eq!(a, "\nlet 3\nB");
}

#[test]
fn second_build_is_empty() {
    let repo = repo_of(&[("/a.shader", "A")]);
    let mut b = ShaderBuilder::new();
    b.include_path("/a.shader".to_string());
    assert_eq!(build(&mut b, &repo).unwrap(), "A");
    assert_eq!(build(&mut b, &repo).unwrap(), "");
}

#[test]
fn nested_builder_is_built_on_its_own() {
    let repo = repo_of(&[("/a.shader", "A"), ("/lib.shader", "L")]);
    let mut inner = ShaderBuilder::new();
    inner.include_path("/a.shader".to_string());
    inner.include_shader(Shader::Source("#include \"lib.shader\"".to_string()));
    let mut outer = ShaderBuilder::new();
    outer.include_path("/a.shader".to_string());
    outer.include_shader(Shader::Builder(inner));
    assert_eq!(build(&mut outer, &repo).unwrap(), "AAL");
}

#[test]
fn duplicate_repository_path_is_refused() {
    let mut repo = SourceRepository::new();
    assert_eq!(repo.add("/a.shader".to_string(), "1".to_string()), Ok(()));
    assert_eq!(
        repo.add("/a.shader".to_string(), "2".to_string()),
        Err(ShaderError::DuplicatePath("/a.shader".to_string()))
    );
    assert_eq!(repo.get("/a.shader"), Some("1".to_string()));
    assert_eq!(repo.get("/b.shader"), None);
}

#[test]
fn shader_parent_and_text() {
    let repo = repo_of(&[("/dir/a.shader", "A")]);
    assert_eq!(Shader::Path("/dir/a.shader".to_string()).get_parent(), "/dir");
    assert_eq!(Shader::Path("a.shader".to_string()).get_parent(), "");
    assert_eq!(Shader::Source("x".to_string()).get_parent(), "/");
    assert_eq!(Shader::Path("dir/a.shader".to_string()).build(&repo).unwrap(), "A");
    assert_eq!(Shader::Source("#include \"x\"".to_string()).build(&repo).unwrap(), "#include \"x\"");
    assert_eq!(
        Shader::Path("/none".to_string()).build(&repo),
        Err(ShaderError::FileNotFound("/none".to_string()))
    );
}

#[test]
fn rename_fn_on_each_kind() {
    let repo = repo_of(&[("/f.shader", "f(1) + g(f(2))")]);
    let mut s = Shader::Source("f(1) + g(f(2))".to_string());
    s.rename_fn("f", "h");
    assert_eq!(s.build(&repo).unwrap(), "h(1) + g(h(2))");

    let mut p = Shader::Path("/f.shader".to_string());
    p.rename_fn("f", "h");
    assert!(matches!(p, Shader::Builder(_)));
    assert_eq!(p.build(&repo).unwrap(), "h(1) + g(h(2))");
}

#[test]
fn obfuscate_fn_gives_sixteen_letters() {
    let mut s = Shader::Source("main(); main();".to_string());
    let name = s.obfuscate_fn("main");
    assert_eq!(name.chars().count(), 16);
    assert!(name.chars().all(|c| c.is_ascii_alphabetic()));
    let repo = SourceRepository::new();
    assert_eq!(s.build(&repo).unwrap(), format!("{}(); {}();", name, name));
}

#[test]
fn path_helpers_normalize() {
    assert_eq!(rooted_path("a/./b/../c.shader"), "/a/c.shader");
    assert_eq!(parent_dir("/x/y.shader"), "/x");
    assert_eq!(resolve_include_path("/dir", "../x.shader"), Some("/x.shader".to_string()));
    assert_eq!(resolve_include_path("/dir", "\\x.shader"), None);
}

#[test]
fn literal_replacement_follows_str_replace() {
    let t = chars_of("abab");
    assert_eq!(string_of(&replace_text(&t, &chars_of("ab"), &chars_of("x"))), "xx");
    assert_eq!(string_of(&replace_text(&chars_of("ab"), &chars_of(""), &chars_of("x"))), "xaxbx");
    assert_eq!(string_of(&replace_text(&chars_of("aaa"), &chars_of("aa"), &chars_of("b"))), "ba");
}

#[test]
fn shader_from_conversions_and_default() {
    let repo = SourceRepository::new();
    assert_eq!(Shader::from("text".to_string()).build(&repo).unwrap(), "text");
    let mut inner = ShaderBuilder::default();
    inner.include_shader(Shader::from("inner".to_string()));
    let nested = Shader::from(inner);
    assert!(matches!(nested, Shader::Builder(_)));
    assert_eq!(nested.build(&repo).unwrap(), "inner");
    let mut empty = ShaderBuilder::default();
    assert_eq!(empty.build_source(&repo).unwrap(), "");
}

#[test]
fn defines_of_three_lengths_in_any_order() {
    let repo = SourceRepository::new();
    let mut b = ShaderBuilder::new();
    b.define("A".to_string(), "1".to_string());
    b.define("ABC".to_string(), "3".to_string());
    b.define("AB".to_string(), "2".to_string());
    b.include_shader(Shader::Source("ABC AB A".to_string()));
    assert_eq!(build(&mut b, &repo).unwrap(), "3 2 1");
}

#[test]
fn same_inline_text_is_included_once() {
    let repo = SourceRepository::new();
    let mut b = ShaderBuilder::new();
    b.include_shader(Shader::Source("S".to_string()));
    b.include_shader(Shader::Source("S".to_string()));
    b.include_shader(Shader::Source("T".to_string()));
    assert_eq!(build(&mut b, &repo).unwrap(), "ST");
}

#[test]
fn repository_keys_are_normalized() {
    let mut repo = SourceRepository::new();
    assert_eq!(repo.add("x/../a.shader".to_string(), "A".to_string()), Ok(()));
    assert_eq!(repo.get("/a.shader"), Some("A".to_string()));
    assert_eq!(
        repo.add("/./a.shader".to_string(), "B".to_string()),
        Err(ShaderError::DuplicatePath("/a.shader".to_string()))
    );
    let mut b = ShaderBuilder::new();
    b.include_path("a.shader".to_string());
    assert_eq!(build(&mut b, &repo).unwrap(), "A");
}

#[test]
fn expand_includes_records_visited_files() {
    let repo = repo_of(&[("/lib/b.shader", "B"), ("/lib/c.shader", "#include \"b.shader\"")]);
    let mut visited: Vec<String> = vec!["/seen.shader".to_string()];
    let text = chars_of("x\n#include \"c.shader\"\n#include \"b.shader\"\ny");
    let out = expand_includes(&text, &"/lib".to_string(), &mut visited, &repo).unwrap();
    assert_eq!(string_of(&out), "x\nB\n\ny");
    assert_eq!(visited, vec!["/seen.shader", "/lib/c.shader", "/lib/b.shader"]);
}

#[test]
fn expand_includes_keeps_visited_on_missing_file() {
    let repo = SourceRepository::new();
    let mut visited: Vec<String> = vec!["/seen.shader".to_string()];
    let text = chars_of("#include \"gone.shader\"");
    let r = expand_includes(&text, &"/".to_string(), &mut visited, &repo);
    assert_eq!(r, Err(ShaderError::FileNotFound("/gone.shader".to_string())));
    assert_eq!(visited, vec!["/seen.shader"]);
}
