use rgit::command::SubCommand;

#[test]
fn parse_accepts_init() {
    assert_eq!(SubCommand::parse("init").unwrap(), SubCommand::Init);
}

#[test]
fn parse_rejects_unknown_word_with_exact_message() {
    let msg = SubCommand::parse("clone").unwrap_err();
    assert_eq!(msg, "rgit: 'clone' is not a rgit command.");
}

#[test]
fn subcommand_name_is_its_word() {
    assert_eq!(SubCommand::Init.name(), "init");
}
