use aipoint_share::path::{sanitize_rel, strip_root, unique_path, RelPath};

fn parts(rel: &str) -> Result<Vec<String>, String> {
    sanitize_rel(rel).map(|p| p.parts().clone())
}

fn ok(list: &[&str]) -> Result<Vec<String>, String> {
    Ok(list.iter().map(|s| s.to_string()).collect())
}

fn path(rel: &str) -> RelPath {
    sanitize_rel(rel).unwrap()
}

#[test]
fn both_slashes_split() {
    assert_eq!(parts("a/b\\c.txt"), ok(&["a", "b", "c.txt"]));
    assert_eq!(parts("a\\b/c.txt"), parts("a/b/c.txt"));
}

#[test]
fn empty_pieces_and_dots_are_passed_over() {
    assert_eq!(parts("/a//./b/"), ok(&["a", "b"]));
    assert_eq!(parts("./a"), ok(&["a"]));
}

#[test]
fn climbing_up_is_refused() {
    assert_eq!(parts(".."), Err("bad path".to_string()));
    assert_eq!(parts("a/../b"), Err("bad path".to_string()));
    assert_eq!(parts("a\\..\\b"), Err("bad path".to_string()));
}

#[test]
fn colons_are_refused() {
    assert_eq!(parts("C:/x"), Err("bad path".to_string()));
    assert_eq!(parts("a/b:c"), Err("bad path".to_string()));
}

#[test]
fn nothing_left_is_refused() {
    assert_eq!(parts(""), Err("empty path".to_string()));
    assert_eq!(parts("///."), Err("empty path".to_string()));
    assert_eq!(parts("..."), Err("empty path".to_string()));
    assert_eq!(parts(".. /. "), Err("empty path".to_string()));
}

#[test]
fn a_bad_piece_goes_before_an_empty_path() {
    assert_eq!(parts(".../.."), Err("bad path".to_string()));
}

#[test]
fn forbidden_characters_become_underscores() {
    assert_eq!(parts("a<b>\"c|d?e*f\u{1}g"), ok(&["a_b__c_d_e_f_g"]));
    assert_eq!(parts("a\u{1f} b\u{20}c"), ok(&["a_ b c"]));
}

#[test]
fn tails_of_dots_and_spaces_are_cut() {
    assert_eq!(parts("name. . ./x"), ok(&["name", "x"]));
    assert_eq!(parts("a.txt."), ok(&["a.txt"]));
    assert_eq!(parts(" a"), ok(&[" a"]));
}

#[test]
fn a_piece_of_dots_leaves_an_empty_part() {
    assert_eq!(parts("a/..."), ok(&["a", ""]));
    assert_eq!(parts("a/.../b"), ok(&["a", "", "b"]));
    assert_eq!(path("a/...").file_name(), "a");
}

#[test]
fn letters_of_any_script_stay() {
    assert_eq!(parts("\u{fc}ber/\u{4f60}\u{597d}.txt"), ok(&["\u{fc}ber", "\u{4f60}\u{597d}.txt"]));
}

#[test]
fn a_safe_path_stays_as_it_is() {
    let once = parts("x/ y?/z. ").unwrap();
    assert_eq!(parts(&once.join("/")), Ok(once));
}

#[test]
fn a_free_name_is_kept() {
    let p = path("d/a.txt");
    let r = unique_path(&p, |_| false);
    assert_eq!(r.parts(), p.parts());
}

#[test]
fn the_smallest_free_number_is_taken() {
    let taken = ["a.txt", "a (1).txt", "a (2).txt"];
    let p = path("d/a.txt");
    let r = unique_path(&p, |q| taken.contains(&q.file_name().as_str()));
    assert_eq!(r.parts(), &vec!["d".to_string(), "a (3).txt".to_string()]);
}

#[test]
fn the_number_goes_before_the_last_extension() {
    let next = |rel: &str| {
        let p = path(rel);
        let own = p.file_name();
        unique_path(&p, |q| q.file_name() == own).file_name()
    };
    assert_eq!(next("archive.tar.gz"), "archive.tar (1).gz");
    assert_eq!(next("README"), "README (1)");
    assert_eq!(next(".bashrc"), ".bashrc (1)");
    assert_eq!(next(".a.b"), ".a (1).b");
    assert_eq!(next("..a"), ". (1).a");
}

#[test]
fn a_numbered_name_drops_empty_parts_behind_it() {
    let p = path("d/a/...");
    let r = unique_path(&p, |q| q.file_name() == "a");
    assert_eq!(r.parts(), &vec!["d".to_string(), "a (1)".to_string()]);
}

#[test]
fn the_last_number_is_9999() {
    let p = path("a");
    let r = unique_path(&p, |q| q.file_name() != "a (9999)");
    assert_eq!(r.file_name(), "a (9999)");
}

#[test]
fn where_all_are_taken_the_path_itself_is_given() {
    let p = path("a");
    assert_eq!(unique_path(&p, |_| true).file_name(), "a");
}

#[test]
fn strip_root_takes_the_first_piece_off() {
    assert_eq!(strip_root("root/x/y"), "x/y");
    assert_eq!(strip_root("root\\x\\y"), "x/y");
    assert_eq!(strip_root("file.txt"), "file.txt");
    assert_eq!(strip_root("/x"), "x");
    assert_eq!(strip_root("root/"), "");
    assert_eq!(strip_root(""), "");
}

#[test]
fn join_puts_one_path_behind_another() {
    let j = path("a/b").join(&path("c"));
    assert_eq!(j.parts(), &vec!["a".to_string(), "b".to_string(), "c".to_string()]);
}

#[test]
fn paths_with_a_separator_between_them_are_taken_together() {
    for (a, b) in [("a/b", "c. /d"), ("a", "..."), ("...", "b"), ("x?", "./y")] {
        let both = parts(&format!("{a}\\{b}")).unwrap();
        let left = parts(a).unwrap_or(vec![String::new()]);
        let right = parts(b).unwrap_or(vec![String::new()]);
        assert_eq!(both, [left, right].concat());
    }
    assert_eq!(parts("a/.."), Err("bad path".to_string()));
    assert_eq!(parts("..../ ."), Err("empty path".to_string()));
}

#[test]
fn empty_parts_are_gone_the_second_time() {
    let once = parts("a/.../b").unwrap();
    assert_eq!(once.join("/"), "a//b");
    assert_eq!(parts(&once.join("/")), ok(&["a", "b"]));
}
