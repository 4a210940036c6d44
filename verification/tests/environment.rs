use zaytos::env::{
    classify_env_line, default_environment, env_source, is_name_byte, is_name_start,
    trim_env_line, EnvLine, EnvReject, Environment, ENV_LINE_MAX,
};

#[test]
fn an_environment_line_is_taken_ignored_or_rejected() {
    assert_eq!(classify_env_line(b"TERM=zaytos"), EnvLine::Take);
    assert_eq!(classify_env_line(b"_X=1"), EnvLine::Take);
    assert_eq!(classify_env_line(b"EMPTY="), EnvLine::Take);
    assert_eq!(classify_env_line(b"A=b=c"), EnvLine::Take);
    assert_eq!(classify_env_line(b""), EnvLine::Ignore);
    assert_eq!(classify_env_line(b"# comment"), EnvLine::Ignore);
    assert_eq!(
        classify_env_line(b"NOEQUALS"),
        EnvLine::Reject(EnvReject::NoEquals)
    );
    assert_eq!(
        classify_env_line(b"=value"),
        EnvLine::Reject(EnvReject::EmptyName)
    );
    assert_eq!(
        classify_env_line(b"1BAD=x"),
        EnvLine::Reject(EnvReject::BadName)
    );
    assert_eq!(
        classify_env_line(b"A-B=x"),
        EnvLine::Reject(EnvReject::BadName)
    );
    let mut long = [b'A'; ENV_LINE_MAX + 1];
    long[1] = b'=';
    assert_eq!(
        classify_env_line(&long),
        EnvLine::Reject(EnvReject::TooLong)
    );
    assert_eq!(classify_env_line(&long[..ENV_LINE_MAX]), EnvLine::Take);
}

#[test]
fn an_environment_line_is_trimmed_on_both_sides() {
    assert_eq!(trim_env_line(b"  TERM=zaytos  "), b"TERM=zaytos");
    assert_eq!(trim_env_line(b"TERM=zaytos\r"), b"TERM=zaytos");
    assert_eq!(trim_env_line(b"\tA=1 \r"), b"A=1");
    assert_eq!(trim_env_line(b"A=b c"), b"A=b c");
    assert_eq!(trim_env_line(b"   "), b"");
}

#[test]
fn the_default_environment_carries_home() {
    assert!(default_environment()
        .iter()
        .any(|line| line.starts_with(b"HOME=")));
}

#[test]
fn every_default_line_is_one_that_is_taken() {
    for line in default_environment() {
        assert_eq!(classify_env_line(&line), EnvLine::Take);
    }
}

#[test]
fn trimming_a_trimmed_line_changes_nothing() {
    let once = trim_env_line(b" \t A=1\r ");
    assert_eq!(trim_env_line(once), once);
}

#[test]
fn names_begin_with_a_letter_or_an_underscore() {
    assert!(is_name_start(b'A') && is_name_start(b'z') && is_name_start(b'_'));
    assert!(!is_name_start(b'0') && !is_name_start(b'-') && !is_name_start(b' '));
    assert!(is_name_byte(b'0') && is_name_byte(b'_') && is_name_byte(b'q'));
    assert!(!is_name_byte(b'-') && !is_name_byte(b'='));
}

#[test]
fn a_file_gives_the_environment_its_lines() {
    let mut environment = Environment::new();
    let loaded = environment.load_environment(Some(
        b"# the terminal\nTERM=zaytos\n\n  HOME=/root \r\nBROKEN\nPATH=/bin",
    ));
    assert_eq!(loaded.taken, 3);
    assert_eq!(loaded.dropped, 1);
    assert!(environment.from_file());
    assert_eq!(
        environment.lines(),
        &[
            b"TERM=zaytos".to_vec(),
            b"HOME=/root".to_vec(),
            b"PATH=/bin".to_vec()
        ][..]
    );
}

#[test]
fn without_a_usable_file_the_defaults_stand() {
    let defaults = default_environment();
    let mut environment = Environment::new();
    environment.load_environment(None);
    assert!(!environment.from_file());
    assert_eq!(environment.lines(), &defaults[..]);
    let mut environment = Environment::new();
    environment.load_environment(Some(b"# nothing but this\n"));
    assert_eq!(environment.lines(), &defaults[..]);
}

#[test]
fn a_table_that_is_full_takes_no_more() {
    let mut environment = Environment::new();
    let mut pushed = 0;
    while environment.push(b"A=1") {
        pushed += 1;
    }
    assert_eq!(pushed, 8);
    assert_eq!(environment.lines().len(), 8);
}

#[test]
fn only_the_first_block_of_a_file_is_read() {
    assert_eq!(env_source(3, b"A=1\0\0\0"), b"A=1");
    assert_eq!(env_source(100, b"A=1"), b"A=1");
}
