use macrobm::config::{parse_config_file, yaml_args_to_stringlist, yaml_stringarray_to_native,
    ConfigError};
use macrobm::yaml::YamlData;

#[test]
fn test_yaml_args_to_strings() {
    let yaml_args = vec![
        YamlData::Real("0.234".to_string()),
        YamlData::Integer(15),
        YamlData::Str("hallo".to_string()),
        YamlData::Null,
    ];
    let strings = yaml_args_to_stringlist(&yaml_args).unwrap();

    assert_eq!(strings.len(), 3);
    assert_eq!(strings[0], "0.234");
    assert_eq!(strings[1], "15");
    assert_eq!(strings[2], "hallo");
}

#[test]
fn test_yaml_args_to_strings_failcondition() {
    let yaml_args = vec![YamlData::Array(vec![
        YamlData::Integer(1),
        YamlData::Integer(2),
        YamlData::Integer(3),
    ])];
    assert_eq!(yaml_args_to_stringlist(&yaml_args), Err(ConfigError::BadArgument));
}

#[test]
fn test_yaml_strings_to_native_strings() {
    let yaml_string = vec![
        YamlData::Str("Hallo".to_string()),
        YamlData::Str("Welt".to_string()),
    ];
    let native_string = yaml_stringarray_to_native(&yaml_string).unwrap();

    assert_eq!(native_string[0], "Hallo");
    assert_eq!(native_string[1], "Welt");
}

#[test]
fn test_yaml_strings_to_native_strings_failcondition() {
    let yaml_string = vec![YamlData::Integer(1), YamlData::Real("0.5123".to_string())];
    assert_eq!(
        yaml_stringarray_to_native(&yaml_string),
        Err(ConfigError::BadEnvironment)
    );
}

#[test]
fn test_cfg_explicit_case_list_simple1() {
    let yaml_str = "---
    cases:
        - name: \"testcase_simple\"
          command: \"testcase_command\"
          count: 20";
    let cfg = parse_config_file(yaml_str).unwrap();

    let case = cfg.get("testcase_simple").unwrap();
    assert_eq!(case.name, "testcase_simple");
    assert_eq!(case.command, "testcase_command");
    assert_eq!(case.count, 20);
}

#[test]
fn test_cfg_explicit_case_list_simple2() {
    let yaml_str = "---
    cases:
        - name: \"testcase1\"
          command: \"testcmd1\"
          count: 15
        - name: \"testcase2\"
          command: \"testcmd2\"
          count: 30";
    let cfg = parse_config_file(yaml_str).unwrap();

    let case1 = cfg.get("testcase1").unwrap();
    assert_eq!(case1.name, "testcase1");
    assert_eq!(case1.command, "testcmd1");
    assert_eq!(case1.count, 15);

    let case2 = cfg.get("testcase2").unwrap();
    assert_eq!(case2.name, "testcase2");
    assert_eq!(case2.command, "testcmd2");
    assert_eq!(case2.count, 30);
}

#[test]
fn test_cfg_defaulted_command() {
    let yaml_str = "---
    command: \"common_command\"
    cases:
        - name: \"testcase1\"
          count: 15
        - name: \"testcase2\"
          count: 30";
    let cfg = parse_config_file(yaml_str).unwrap();

    let case1 = cfg.get("testcase1").unwrap();
    assert_eq!(case1.name, "testcase1");
    assert_eq!(case1.command, "common_command");
    assert_eq!(case1.count, 15);

    let case2 = cfg.get("testcase2").unwrap();
    assert_eq!(case2.name, "testcase2");
    assert_eq!(case2.command, "common_command");
    assert_eq!(case2.count, 30);
}

#[test]
fn test_cfg_command_arguments() {
    let yaml_str = "---
    cases:
        - name: \"testcase\"
          command: \"testcommand_with_args\"
          args: [\"string\", 15, 123.14]
          count: 15
          directory: \"/etc/apache2/\"";
    let cfg = parse_config_file(yaml_str).unwrap();

    let case = cfg.get("testcase").unwrap();
    assert_eq!(case.name, "testcase");
    assert_eq!(case.command, "testcommand_with_args");
    assert_eq!(case.count, 15);
    assert_eq!(case.directory, "/etc/apache2/");

    let expected_args = vec!["string".to_string(), "15".to_string(), "123.14".to_string()];
    assert_eq!(case.args[0].to_string(), expected_args[0]);
    assert_eq!(case.args[1].to_string(), expected_args[1]);
    assert_eq!(case.args[2].to_string(), expected_args[2]);
}

#[test]
fn test_cfg_no_name() {
    let yaml_str = "---
    cases:
        - command: \"descriptive_command\"";
    let cfg = parse_config_file(yaml_str).unwrap();

    let case = cfg.get("descriptive_command").unwrap();
    assert_eq!(case.name, "descriptive_command");
    assert_eq!(case.command, "descriptive_command");
    assert_eq!(case.count, 1);
}

#[test]
fn test_cfg_realworld1() {
    let yaml_str = "---
    count: 30
    command: \"../ulf.x\"
    cases:
        - name: \"hReactor_ct\"
          args: [\"-f\", \"hReactor/hReactor_ct.ulf\"]

        - name: \"hReactor_ct_chem\"
          args: [\"-f\", \"hReactor/hReactor_ct_chem.ulf\"]

        - name: \"hReactor_eg\"
          args: [\"-f\", \"hReactor/hReactor_eg.ulf\"]

        - name: \"hReactor_uc\"
          args: [\"-f\", \"hReactor/hReactor_uc.ulf\"]";
    let cfg = parse_config_file(yaml_str).unwrap();

    let ct = cfg.get("hReactor_ct").unwrap();
    assert_eq!(ct.command, "../ulf.x");
    assert_eq!(ct.name, "hReactor_ct");
    let expected_args = vec!["-f".to_string(), "hReactor/hReactor_ct.ulf".to_string()];
    assert_eq!(ct.args[0].to_string(), expected_args[0]);
    assert_eq!(ct.args[1].to_string(), expected_args[1]);
    assert_eq!(ct.count, 30);

    let chem = cfg.get("hReactor_ct_chem").unwrap();
    assert_eq!(chem.command, "../ulf.x");
    assert_eq!(chem.name, "hReactor_ct_chem");
    let expected_args = vec!["-f".to_string(), "hReactor/hReactor_ct_chem.ulf".to_string()];
    assert_eq!(chem.args[0].to_string(), expected_args[0]);
    assert_eq!(chem.args[1].to_string(), expected_args[1]);
    assert_eq!(chem.count, 30);

    let eg = cfg.get("hReactor_eg").unwrap();
    assert_eq!(eg.command, "../ulf.x");
    assert_eq!(eg.name, "hReactor_eg");
    let expected_args = vec!["-f".to_string(), "hReactor/hReactor_eg.ulf".to_string()];
    assert_eq!(eg.args[0].to_string(), expected_args[0]);
    assert_eq!(eg.args[1].to_string(), expected_args[1]);
    assert_eq!(eg.count, 30);

    let uc = cfg.get("hReactor_uc").unwrap();
    assert_eq!(uc.command, "../ulf.x");
    assert_eq!(uc.name, "hReactor_uc");
    let expected_args = vec!["-f".to_string(), "hReactor/hReactor_uc.ulf".to_string()];
    assert_eq!(uc.args[0].to_string(), expected_args[0]);
    assert_eq!(uc.args[1].to_string(), expected_args[1]);
    assert_eq!(uc.count, 30);
}

#[test]
fn test_cfg_missing_command() {
    let yaml_str = "---
    cases:
        - name: \"broken\"
          command: \"\"";
    assert_eq!(parse_config_file(yaml_str).err(), Some(ConfigError::MissingCommand));
}

#[test]
fn test_cfg_invalid_count() {
    let yaml_str = "---
    cases:
        - name: \"broken\"
          command: \"cmd\"
          count: 0";
    assert_eq!(parse_config_file(yaml_str).err(), Some(ConfigError::InvalidCount));
}

#[test]
fn test_cfg_missing_cases() {
    let yaml_str = "---
    command: \"cmd\"";
    assert_eq!(parse_config_file(yaml_str).err(), Some(ConfigError::MissingCases));
}

#[test]
fn test_cfg_invalid_yaml() {
    assert_eq!(parse_config_file(": :\n  - [").err(), Some(ConfigError::InvalidYaml));
}

#[test]
fn test_cfg_no_document() {
    assert_eq!(parse_config_file("").err(), Some(ConfigError::NoDocument));
}

#[test]
fn test_cfg_duplicate_name_last_wins() {
    let yaml_str = "---
    cases:
        - name: \"same\"
          command: \"first\"
        - name: \"same\"
          command: \"second\"";
    let cfg = parse_config_file(yaml_str).unwrap();
    assert_eq!(cfg.len(), 1);
    assert_eq!(cfg.get("same").unwrap().command, "second");
}
