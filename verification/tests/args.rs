use rfvp_patch::args::{
    missing_nls_message, parse_nls_arg, parse_project_dir_arg, parse_sakura_moyu_chs_patch_arg,
    parse_system_font_arg, require_sakura_moyu_chs_patch_files, NlsArgError, PatchFile,
};

fn args(texts: &[&str]) -> Vec<String> {
    texts.iter().map(|text| text.to_string()).collect()
}

fn project_dir(texts: &[&str]) -> Option<String> {
    parse_project_dir_arg(&args(texts))
}

fn nls(texts: &[&str]) -> Result<u32, NlsArgError<String>> {
    parse_nls_arg(&args(texts), 932, |name: &str| match name {
        "gbk" => Ok(936),
        "utf8" => Ok(65001),
        other => Err(format!("unknown encoding {}", other)),
    })
}

#[test]
fn project_dir_in_both_spellings() {
    assert_eq!(project_dir(&["rfvp", "--project-dir", "game"]), Some("game".to_string()));
    assert_eq!(project_dir(&["rfvp", "--project-dir=game"]), Some("game".to_string()));
    assert_eq!(
        project_dir(&["rfvp", "--project-dir=\u{6e38}\u{620f}=1"]),
        Some("\u{6e38}\u{620f}=1".to_string())
    );
}

#[test]
fn no_project_dir() {
    assert_eq!(project_dir(&[]), None);
    assert_eq!(project_dir(&["--project-dir=game"]), None);
    assert_eq!(project_dir(&["rfvp", "--project-dir"]), None);
    assert_eq!(project_dir(&["rfvp", "--project-dir="]), None);
    assert_eq!(project_dir(&["rfvp", "--project-dir", ""]), None);
    assert_eq!(project_dir(&["rfvp", "--project-dirs=game", "game"]), None);
}

#[test]
fn first_usable_project_dir_stands() {
    assert_eq!(
        project_dir(&["rfvp", "--project-dir=", "--project-dir", "", "--project-dir=a", "--project-dir=b"]),
        Some("a".to_string())
    );
    assert_eq!(
        project_dir(&["rfvp", "--project-dir", "--project-dir=a"]),
        Some("--project-dir=a".to_string())
    );
}

#[test]
fn nls_in_both_spellings() {
    assert_eq!(nls(&["rfvp", "--nls", "gbk"]).unwrap(), 936);
    assert_eq!(nls(&["rfvp", "--nls=utf8", "--nls=gbk"]).unwrap(), 65001);
}

#[test]
fn nls_default() {
    assert_eq!(nls(&[]).unwrap(), 932);
    assert_eq!(nls(&["--nls=gbk"]).unwrap(), 932);
    assert_eq!(nls(&["rfvp", "gbk", "--nlss"]).unwrap(), 932);
}

#[test]
fn nls_errors() {
    assert!(matches!(
        nls(&["rfvp", "--nls=big5"]),
        Err(NlsArgError::Invalid(error)) if error == "unknown encoding big5"
    ));
    assert!(matches!(
        nls(&["rfvp", "--nls="]),
        Err(NlsArgError::Invalid(error)) if error == "unknown encoding "
    ));
    assert!(matches!(
        nls(&["rfvp", "--nls", "--nls=gbk"]),
        Err(NlsArgError::Invalid(error)) if error == "unknown encoding --nls=gbk"
    ));
    assert!(matches!(nls(&["rfvp", "x", "--nls"]), Err(NlsArgError::MissingValue)));
    assert_eq!(missing_nls_message(), "--nls requires a value (sjis, gbk, utf8)");
}

#[test]
fn flags() {
    assert!(parse_system_font_arg(&args(&["rfvp", "x", "--system-font"])));
    assert!(!parse_system_font_arg(&args(&["--system-font"])));
    assert!(!parse_system_font_arg(&args(&["rfvp", "--system-fonts", "--sakura-moyu-chs-patch"])));
    assert!(!parse_system_font_arg(&args(&[])));

    assert!(parse_sakura_moyu_chs_patch_arg(&args(&["rfvp", "--sakura-moyu-chs-patch"])));
    assert!(!parse_sakura_moyu_chs_patch_arg(&args(&["rfvp", "--system-font"])));
}

#[test]
fn both_patch_files_are_required() {
    let found = |dat: bool, bin: bool| {
        require_sakura_moyu_chs_patch_files("/game", "/game/patch.dat", dat, "/game/patch.bin", bin)
    };

    assert_eq!(found(true, true).unwrap(), ("/game/patch.dat", "/game/patch.bin"));

    let missing = found(false, false).unwrap_err();
    assert_eq!(missing.file, PatchFile::PatchDat);
    assert_eq!(
        missing.message(),
        "--sakura-moyu-chs-patch requires patch.dat under /game"
    );
    assert_eq!(found(false, true).unwrap_err().file, PatchFile::PatchDat);

    let missing = found(true, false).unwrap_err();
    assert_eq!(missing.file, PatchFile::PatchBin);
    assert_eq!(
        missing.message(),
        "--sakura-moyu-chs-patch requires patch.bin under /game"
    );
}
