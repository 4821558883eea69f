use sql_like::{like, like_optimize, MAX_RECURSE_LEVEL};

const BACKSLASH: u32 = 0x5c;

fn cases() -> Vec<(&'static str, &'static str, char, Option<i64>)> {
    vec![
        (r#"hello"#, r#"%HELLO%"#, '\\', Some(0)),
        (r#"Hello, World"#, r#"Hello, World"#, '\\', Some(1)),
        (r#"Hello, World"#, r#"Hello, %"#, '\\', Some(1)),
        (r#"Hello, World"#, r#"%, World"#, '\\', Some(1)),
        (r#"test"#, r#"te%st"#, '\\', Some(1)),
        (r#"test"#, r#"te%%st"#, '\\', Some(1)),
        (r#"test"#, r#"test%"#, '\\', Some(1)),
        (r#"test"#, r#"%test%"#, '\\', Some(1)),
        (r#"test"#, r#"t%e%s%t"#, '\\', Some(1)),
        (r#"test"#, r#"_%_%_%_"#, '\\', Some(1)),
        (r#"test"#, r#"_%_%st"#, '\\', Some(1)),
        (r#"C:"#, r#"%\"#, '\\', Some(0)),
        (r#"C:\"#, r#"%\"#, '\\', Some(1)),
        (r#"C:\Programs"#, r#"%\"#, '\\', Some(0)),
        (r#"C:\Programs\"#, r#"%\"#, '\\', Some(1)),
        (r#"C:"#, r#"%\\"#, '\\', Some(0)),
        (r#"C:\"#, r#"%\\"#, '\\', Some(1)),
        (r#"C:\Programs"#, r#"%\\"#, '\\', Some(0)),
        (r#"C:\Programs\"#, r#"%\\"#, '\\', Some(1)),
        (r#"C:\Programs\"#, r#"%Prog%"#, '\\', Some(1)),
        (r#"C:\Programs\"#, r#"%Pr_g%"#, '\\', Some(1)),
        (r#"C:\Programs\"#, r#"%%\"#, '%', Some(1)),
        (r#"C:\Programs%"#, r#"%%%"#, '%', Some(1)),
        (r#"C:\Programs%"#, r#"%%%%"#, '%', Some(1)),
        (r#"hello"#, r#"\%"#, '\\', Some(0)),
        (r#"%"#, r#"\%"#, '\\', Some(1)),
        (r#"3hello"#, r#"%%hello"#, '%', Some(1)),
        (r#"3hello"#, r#"3%hello"#, '3', Some(0)),
        (r#"3hello"#, r#"__hello"#, '_', Some(0)),
        (r#"3hello"#, r#"%_hello"#, '%', Some(1)),
        // Many `%` between literals that nearly match.
        (
            r#"aaaaaaaaaaaaaaaaaaaaaaaaaaa"#,
            r#"a%a%a%a%a%a%a%a%b"#,
            '\\',
            Some(0),
        ),
    ]
}

#[test]
fn test_like() {
    for (target, pattern, escape, expected) in cases() {
        let output =
            like_optimize(target.as_bytes(), pattern.as_bytes(), escape as u32).unwrap() as i64;
        assert_eq!(
            output,
            expected.unwrap(),
            "target={}, pattern={}, escape={}",
            target,
            pattern,
            escape
        );
    }
}

#[test]
fn backtracking_agrees_on_the_table() {
    let table = cases();
    // The last row is the one that makes backtracking explode.
    for (target, pattern, escape, expected) in &table[..table.len() - 1] {
        let output = like(target.as_bytes(), pattern.as_bytes(), *escape as u32, 1);
        assert_eq!(
            output,
            Ok(expected.unwrap() == 1),
            "target={}, pattern={}, escape={}",
            target,
            pattern,
            escape
        );
    }
}

#[test]
fn backtracking_pathological_row_short() {
    // The same shape as the last row of the table, cut down to a size that
    // backtracking explores quickly.
    assert_eq!(like(b"aaaaaaaaaaaa", b"a%a%a%a%a%b", BACKSLASH, 1), Ok(false));
    assert_eq!(like_optimize(b"aaaaaaaaaaaa", b"a%a%a%a%a%b", BACKSLASH), Ok(false));
}

#[test]
fn no_case_folding() {
    assert_eq!(like_optimize(b"hello", b"%HELLO%", BACKSLASH), Ok(false));
    assert_eq!(like(b"hello", b"%HELLO%", BACKSLASH, 0), Ok(false));
    assert_eq!(like_optimize(b"hello", b"%hello%", BACKSLASH), Ok(true));
    assert_eq!(like(b"hello", b"%hello%", BACKSLASH, 0), Ok(true));
}

#[test]
fn suffix_after_run() {
    assert_eq!(like_optimize(b"Hello, World", b"%, World", BACKSLASH), Ok(true));
    assert_eq!(like(b"Hello, World", b"%, World", BACKSLASH, 0), Ok(true));
}

#[test]
fn alternating_wildcards() {
    assert_eq!(like_optimize(b"test", b"_%_%_%_", BACKSLASH), Ok(true));
    assert_eq!(like(b"test", b"_%_%_%_", BACKSLASH, 0), Ok(true));
    assert_eq!(like_optimize(b"tes", b"_%_%_%_", BACKSLASH), Ok(false));
    assert_eq!(like(b"tes", b"_%_%_%_", BACKSLASH, 0), Ok(false));
}

#[test]
fn escaped_escape_byte() {
    assert_eq!(like_optimize(b"C:", b"%\\\\", BACKSLASH), Ok(false));
    assert_eq!(like_optimize(b"C:\\", b"%\\\\", BACKSLASH), Ok(true));
    assert_eq!(like(b"C:", b"%\\\\", BACKSLASH, 0), Ok(false));
    assert_eq!(like(b"C:\\", b"%\\\\", BACKSLASH, 0), Ok(true));
}

#[test]
fn escaped_percent_is_literal() {
    assert_eq!(like_optimize(b"%", b"\\%", BACKSLASH), Ok(true));
    assert_eq!(like_optimize(b"hello", b"\\%", BACKSLASH), Ok(false));
    assert_eq!(like(b"%", b"\\%", BACKSLASH, 0), Ok(true));
    assert_eq!(like(b"hello", b"\\%", BACKSLASH, 0), Ok(false));
}

#[test]
fn escaped_underscore_is_literal() {
    assert_eq!(like_optimize(b"_", b"\\_", BACKSLASH), Ok(true));
    assert_eq!(like_optimize(b"a", b"\\_", BACKSLASH), Ok(false));
    assert_eq!(like(b"_", b"\\_", BACKSLASH, 0), Ok(true));
    assert_eq!(like(b"a", b"\\_", BACKSLASH, 0), Ok(false));
    // Behind a `%` too.
    assert_eq!(like_optimize(b"x_", b"%\\_", BACKSLASH), Ok(true));
    assert_eq!(like_optimize(b"xa", b"%\\_", BACKSLASH), Ok(false));
    assert_eq!(like(b"x_", b"%\\_", BACKSLASH, 0), Ok(true));
    assert_eq!(like(b"xa", b"%\\_", BACKSLASH, 0), Ok(false));
}

#[test]
fn escape_before_ordinary_byte() {
    assert_eq!(like_optimize(b"ab", b"\\a\\b", BACKSLASH), Ok(true));
    assert_eq!(like(b"ab", b"\\a\\b", BACKSLASH, 0), Ok(true));
    assert_eq!(like_optimize(b"\\a", b"\\a", BACKSLASH), Ok(false));
    assert_eq!(like(b"\\a", b"\\a", BACKSLASH, 0), Ok(false));
}

#[test]
fn trailing_escape_is_itself() {
    assert_eq!(like_optimize(b"a\\", b"a\\", BACKSLASH), Ok(true));
    assert_eq!(like_optimize(b"a", b"a\\", BACKSLASH), Ok(false));
    assert_eq!(like(b"a\\", b"a\\", BACKSLASH, 0), Ok(true));
    assert_eq!(like(b"a", b"a\\", BACKSLASH, 0), Ok(false));
    assert_eq!(like_optimize(b"C:\\", b"%\\", BACKSLASH), Ok(true));
    assert_eq!(like(b"C:\\", b"%\\", BACKSLASH, 0), Ok(true));
}

#[test]
fn empty_pattern_matches_only_empty_target() {
    assert_eq!(like_optimize(b"", b"", BACKSLASH), Ok(true));
    assert_eq!(like_optimize(b"a", b"", BACKSLASH), Ok(false));
    assert_eq!(like(b"", b"", BACKSLASH, 0), Ok(true));
    assert_eq!(like(b"a", b"", BACKSLASH, 0), Ok(false));
    assert_eq!(like(b"", b"", BACKSLASH, usize::MAX), Ok(true));
}

#[test]
fn runs_alone_match_everything() {
    for pattern in [&b"%"[..], &b"%%"[..], &b"%%%%%"[..]] {
        for target in [&b""[..], &b"a"[..], &b"%"[..], &b"hello\nworld"[..], &[0u8, 255, 128][..]] {
            assert_eq!(like_optimize(target, pattern, BACKSLASH), Ok(true));
            assert_eq!(like(target, pattern, BACKSLASH, 0), Ok(true));
            assert_eq!(like(target, pattern, BACKSLASH, usize::MAX), Ok(true));
        }
    }
}

#[test]
fn consecutive_runs_are_one() {
    assert_eq!(like_optimize(b"test", b"te%%%st", BACKSLASH), Ok(true));
    assert_eq!(like(b"test", b"te%%%st", BACKSLASH, 0), Ok(true));
    assert_eq!(like_optimize(b"tet", b"te%%%st", BACKSLASH), Ok(false));
    assert_eq!(like(b"tet", b"te%%%st", BACKSLASH, 0), Ok(false));
}

#[test]
fn underscore_behind_run_takes_one_byte() {
    assert_eq!(like_optimize(b"ab", b"%_b", BACKSLASH), Ok(true));
    assert_eq!(like_optimize(b"b", b"%_b", BACKSLASH), Ok(false));
    assert_eq!(like(b"ab", b"%_b", BACKSLASH, 0), Ok(true));
    assert_eq!(like(b"b", b"%_b", BACKSLASH, 0), Ok(false));
    assert_eq!(like_optimize(b"", b"%_", BACKSLASH), Ok(false));
    assert_eq!(like(b"", b"%_", BACKSLASH, 0), Ok(false));
    assert_eq!(like_optimize(b"x", b"%_", BACKSLASH), Ok(true));
    assert_eq!(like(b"x", b"%_", BACKSLASH, 0), Ok(true));
}

#[test]
fn bytes_are_opaque() {
    let target = [0xffu8, 0x00, 0x80, b'\n'];
    assert_eq!(like_optimize(&target, &[0xff, b'_', 0x80, b'%'], BACKSLASH), Ok(true));
    assert_eq!(like(&target, &[0xff, b'_', 0x80, b'%'], BACKSLASH, 0), Ok(true));
    assert_eq!(like_optimize(&target, &[0xff, b'_', 0x81, b'%'], BACKSLASH), Ok(false));
    assert_eq!(like(&target, &[0xff, b'_', 0x81, b'%'], BACKSLASH, 0), Ok(false));
}

#[test]
fn escape_outside_byte_range_disables_escaping() {
    assert_eq!(like_optimize(b"\\%", b"\\%", 0x15c), Ok(true));
    assert_eq!(like_optimize(b"\\abc", b"\\%", 0x15c), Ok(true));
    assert_eq!(like_optimize(b"%", b"\\%", 0x15c), Ok(false));
    assert_eq!(like(b"\\%", b"\\%", 0x15c, 0), Ok(true));
    assert_eq!(like(b"\\abc", b"\\%", 0x15c, 0), Ok(true));
    assert_eq!(like(b"%", b"\\%", 0x15c, 0), Ok(false));
}

#[test]
fn percent_as_escape_stays_a_wildcard() {
    assert_eq!(like_optimize(b"abc", b"%c", 0x25), Ok(true));
    assert_eq!(like(b"abc", b"%c", 0x25, 0), Ok(true));
    assert_eq!(like_optimize(b"c", b"%c", 0x25), Ok(true));
    assert_eq!(like(b"c", b"%c", 0x25, 0), Ok(true));
}

#[test]
fn underscore_as_escape_splits_the_matchers() {
    // The linear matcher reads `_` as a wildcard whatever the escape byte
    // is; the backtracking matcher, before any `%`, reads it as the escape.
    assert_eq!(like_optimize(b"ab", b"__", 0x5f), Ok(true));
    assert_eq!(like(b"ab", b"__", 0x5f, 0), Ok(false));
    assert_eq!(like(b"_", b"__", 0x5f, 0), Ok(true));
    assert_eq!(like_optimize(b"_", b"__", 0x5f), Ok(false));
    // A `_` that escapes nothing is a wildcard for both.
    assert_eq!(like_optimize(b"a", b"_", 0x5f), Ok(true));
    assert_eq!(like(b"a", b"_", 0x5f, 0), Ok(true));
    // Behind a `%` both read `_` as a wildcard.
    assert_eq!(like_optimize(b"xab", b"%__", 0x5f), Ok(true));
    assert_eq!(like(b"xab", b"%__", 0x5f, 0), Ok(true));
}

#[test]
fn repeated_calls_give_the_same_result() {
    for (target, pattern, escape, _) in cases() {
        let first = like_optimize(target.as_bytes(), pattern.as_bytes(), escape as u32);
        let second = like_optimize(target.as_bytes(), pattern.as_bytes(), escape as u32);
        assert_eq!(first, second);
    }
    assert_eq!(like(b"test", b"t%e%s%t", BACKSLASH, 3), like(b"test", b"t%e%s%t", BACKSLASH, 3));
}

#[test]
fn linear_matcher_handles_long_inputs() {
    let target = vec![b'a'; 2000];
    let mut pattern = Vec::new();
    for _ in 0..200 {
        pattern.extend_from_slice(b"a%");
    }
    pattern.push(b'b');
    assert_eq!(like_optimize(&target, &pattern, BACKSLASH), Ok(false));
    pattern.pop();
    assert_eq!(like_optimize(&target, &pattern, BACKSLASH), Ok(true));
}

#[test]
fn recursion_at_the_ceiling() {
    // One recursion is left at the ceiling, none above it.
    assert_eq!(like(b"xa", b"%a", BACKSLASH, MAX_RECURSE_LEVEL), Ok(true));
    assert_eq!(like(b"xa", b"%a", BACKSLASH, MAX_RECURSE_LEVEL + 1), Err(()));
    assert_eq!(like(b"xa", b"%a", BACKSLASH, usize::MAX), Err(()));
    assert_eq!(like(b"ab", b"%a%b", BACKSLASH, MAX_RECURSE_LEVEL - 1), Ok(true));
    assert_eq!(like(b"ab", b"%a%b", BACKSLASH, MAX_RECURSE_LEVEL), Err(()));
}

#[test]
fn above_the_ceiling_only_a_needed_recursion_fails() {
    let level = MAX_RECURSE_LEVEL + 1;
    // No `%` behind which a literal would have to be searched.
    assert_eq!(like(b"abc", b"a_c", BACKSLASH, level), Ok(true));
    assert_eq!(like(b"abc", b"ab%", BACKSLASH, level), Ok(true));
    assert_eq!(like(b"abc", b"%__", BACKSLASH, level), Ok(true));
    // The literal behind the `%` does not occur: the match fails first.
    assert_eq!(like(b"xyz", b"%a", BACKSLASH, level), Ok(false));
    assert_eq!(like(b"bxa", b"a%a", BACKSLASH, level), Ok(false));
    assert_eq!(like(b"", b"%_a", BACKSLASH, level), Ok(false));
    // It occurs: the search would have to recurse.
    assert_eq!(like(b"xyza", b"%a", BACKSLASH, level), Err(()));
    assert_eq!(like(b"xyzab", b"%a", BACKSLASH, level), Err(()));
}

#[test]
fn ceiling_is_reported_from_below() {
    // The second literal behind a `%` is not reached where the first one
    // leads nowhere.
    assert_eq!(like(b"ax", b"%a%b", BACKSLASH, MAX_RECURSE_LEVEL), Ok(false));
    assert_eq!(like(b"xb", b"%a%b", BACKSLASH, MAX_RECURSE_LEVEL), Ok(false));
    assert_eq!(like(b"axb", b"%a%b", BACKSLASH, MAX_RECURSE_LEVEL), Err(()));
    assert_eq!(like(b"axbzzz", b"%a%b", BACKSLASH, MAX_RECURSE_LEVEL), Err(()));
}

#[test]
fn deep_pattern_hits_the_ceiling() {
    let segments = MAX_RECURSE_LEVEL + 2;
    let mut pattern = Vec::new();
    let mut target = Vec::new();
    for _ in 0..segments {
        pattern.extend_from_slice(b"%a");
        target.push(b'a');
    }
    assert_eq!(like(&target, &pattern, BACKSLASH, 0), Err(()));
    assert_eq!(like_optimize(&target, &pattern, BACKSLASH), Ok(true));
    // As many segments as there are levels: decided.
    let fits = 2 * (MAX_RECURSE_LEVEL + 1);
    assert_eq!(like(&target[..fits / 2], &pattern[..fits], BACKSLASH, 0), Ok(true));
    assert_eq!(like(b"bbb", &pattern[..fits], BACKSLASH, 0), Ok(false));
    // One more than that, and the same target is given up.
    assert_eq!(like(&target[..fits / 2 + 1], &pattern[..fits + 2], BACKSLASH, 0), Err(()));
}

#[test]
fn run_at_the_end_of_the_target() {
    assert_eq!(like_optimize(b"a", b"a%", BACKSLASH), Ok(true));
    assert_eq!(like_optimize(b"a", b"a%%", BACKSLASH), Ok(true));
    assert_eq!(like_optimize(b"a", b"a%b", BACKSLASH), Ok(false));
    assert_eq!(like_optimize(b"", b"%a", BACKSLASH), Ok(false));
    assert_eq!(like_optimize(b"", b"%_%", BACKSLASH), Ok(false));
    assert_eq!(like(b"a", b"a%", BACKSLASH, 0), Ok(true));
    assert_eq!(like(b"a", b"a%%", BACKSLASH, 0), Ok(true));
    assert_eq!(like(b"a", b"a%b", BACKSLASH, 0), Ok(false));
    assert_eq!(like(b"", b"%a", BACKSLASH, 0), Ok(false));
    assert_eq!(like(b"", b"%_%", BACKSLASH, 0), Ok(false));
}

#[test]
fn run_retries_after_a_partial_match() {
    assert_eq!(like_optimize(b"aab", b"%ab", BACKSLASH), Ok(true));
    assert_eq!(like_optimize(b"abab", b"%ab", BACKSLASH), Ok(true));
    assert_eq!(like_optimize(b"abac", b"%ab", BACKSLASH), Ok(false));
    assert_eq!(like_optimize(b"xaybzc", b"%a%b%c", BACKSLASH), Ok(true));
    assert_eq!(like_optimize(b"xcybza", b"%a%b%c", BACKSLASH), Ok(false));
    assert_eq!(like(b"aab", b"%ab", BACKSLASH, 0), Ok(true));
    assert_eq!(like(b"abab", b"%ab", BACKSLASH, 0), Ok(true));
    assert_eq!(like(b"abac", b"%ab", BACKSLASH, 0), Ok(false));
    assert_eq!(like(b"xaybzc", b"%a%b%c", BACKSLASH, 0), Ok(true));
    assert_eq!(like(b"xcybza", b"%a%b%c", BACKSLASH, 0), Ok(false));
}

#[test]
fn matchers_agree_on_small_inputs() {
    // Every target and pattern of up to four bytes over a small alphabet.
    let alphabet = [b'a', b'b', b'%', b'_', b'\\'];
    let mut words: Vec<Vec<u8>> = vec![Vec::new()];
    let mut from = 0;
    for _ in 0..4 {
        let until = words.len();
        for i in from..until {
            for c in alphabet {
                let mut word = words[i].clone();
                word.push(c);
                words.push(word);
            }
        }
        from = until;
    }
    for pattern in &words {
        for target in &words {
            let linear = like_optimize(target, pattern, BACKSLASH);
            let backtracking = like(target, pattern, BACKSLASH, 0);
            assert_eq!(linear, backtracking, "target={:?}, pattern={:?}", target, pattern);
        }
    }
}
