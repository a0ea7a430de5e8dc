use magicutil::service_utils::action_to_command;
use magicutil::service_utils::ServiceAction;
use magicutil::utils::get_wmic_output_as_list;

#[test]
fn test_if_splitting_wmic_output_works() {
    let output_string = "StartMode  StartName    State  \nAuto       LocalSystem  Running";
    let output_vector = Vec::from(output_string);

    let wmic_fields = get_wmic_output_as_list(output_vector);
    println!("{:#?}", wmic_fields);

    assert_eq!(wmic_fields[0], "Auto");
    assert_eq!(wmic_fields[1], "LocalSystem");
    assert_eq!(wmic_fields[2], "Running");
}

#[test]
fn wmic_fields_keep_single_spaces() {
    let output = Vec::from("Header\nNT AUTHORITY\\LocalService  Stopped");
    let fields = get_wmic_output_as_list(output);
    assert_eq!(fields.len(), 2);
    assert_eq!(fields[0], "NT AUTHORITY\\LocalService");
    assert_eq!(fields[1], "Stopped");
}

#[test]
fn wmic_empty_data_line_gives_no_fields() {
    let output = Vec::from("Header only\n");
    let fields = get_wmic_output_as_list(output);
    assert!(fields.is_empty());
}

#[test]
fn service_actions_map_to_commands() {
    assert_eq!(action_to_command(ServiceAction::Start), "Start-Service");
    assert_eq!(action_to_command(ServiceAction::Stop), "Stop-Service");
    assert_eq!(action_to_command(ServiceAction::Restart), "Restart-Service");
}
