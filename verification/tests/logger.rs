use paxos::logger::init;

#[test]
fn init_opens_every_level_only_where_a_logger_was_installed() {
    log::set_max_level(log::LevelFilter::Off);
    assert!(init(Ok(())).is_ok());
    assert_eq!(log::max_level(), log::LevelFilter::Trace);
}
