use firn::child::InputEvent;
use firn::config::Config;

#[test]
fn default_config_names_the_shell() {
    let config = Config::default();
    assert_eq!(config.shell, "/usr/bin/bash");
    assert_eq!(config.shell_args, vec![String::from("-i")]);
    assert_eq!(config.read_buf_size, 1024);
    assert_eq!(config.channel_buf_size, 100);
}

#[test]
fn config_clones_field_by_field() {
    let config = Config::default();
    let copy = config.clone();
    assert_eq!(copy.shell, config.shell);
    assert_eq!(copy.shell_args, config.shell_args);
    assert_eq!(copy.read_buf_size, config.read_buf_size);
    assert_eq!(copy.channel_buf_size, config.channel_buf_size);
}

#[test]
fn input_event_carries_raw_bytes() {
    let event = InputEvent::Stdin(vec![0x6C, 0x73, 0x0A]);
    let InputEvent::Stdin(bytes) = event;
    assert_eq!(bytes, b"ls\n".to_vec());
}
