use vlsm_calculator::form::{Calculator, Message, Opt, Opts, ThemeType};

#[test]
fn fresh_form_defaults() {
    let form = Calculator::new();
    assert_eq!(form.theme, ThemeType::Dark);
    assert_eq!(form.net_input, "");
    assert_eq!(form.sizes_input, "");
    assert!(!form.opts.include_first_last_address);
    assert_eq!(form.title(), "VLSM Calculator");
}

#[test]
fn opts_default_is_off() {
    let opts = Opts::default();
    assert!(!opts.include_first_last_address);
}

#[test]
fn update_replaces_the_edited_field() {
    let mut form = Calculator::new();
    form.update(Message::CIDRInputChanged(String::from("192.168.0.0/24")));
    assert_eq!(form.net_input, "192.168.0.0/24");
    form.update(Message::SizesInputChanged(String::from("50,20,10")));
    assert_eq!(form.sizes_input, "50,20,10");
    assert_eq!(form.net_input, "192.168.0.0/24");
}

#[test]
fn update_switches_theme_and_options() {
    let mut form = Calculator::new();
    form.update(Message::ThemeChanged(ThemeType::Light));
    assert_eq!(form.theme(), ThemeType::Light);
    form.update(Message::OptsChanged(Opt::IncludeFirstLastAddress(true)));
    assert!(form.opts.include_first_last_address);
    form.update(Message::OptsChanged(Opt::IncludeFirstLastAddress(false)));
    assert!(!form.opts.include_first_last_address);
}

#[test]
fn submit_leaves_the_form_unchanged() {
    let mut form = Calculator::new();
    form.update(Message::CIDRInputChanged(String::from("10.0.0.0/30")));
    form.update(Message::Submit);
    assert_eq!(form.net_input, "10.0.0.0/30");
    assert_eq!(form.theme, ThemeType::Dark);
}
