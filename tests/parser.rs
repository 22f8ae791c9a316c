use quake_log_parser::error::ParseError;
use quake_log_parser::parser::{game_id, QuakeLogParser};
use serde_json::Value;

const GAME_INIT: &str = r"0:00 InitGame: \sv_floodProtect\1\sv_maxPing\0\sv_minPing\0\sv_maxRate\10000\sv_minRate\0\sv_hostname\Code Miner Server\g_gametype\0\sv_privateClients\2\sv_maxclients\16\sv_allowDownload\0\dmflags\0\fraglimit\20\timelimit\15\g_maxGameClients\0\capturelimit\8\version\ioq3 1.36 linux-x86_64 Apr 12 2009\protocol\68\mapname\q3dm17\gamename\baseq3\g_needpass\0";
const ISGALAMIDO: &str = r"20:38 ClientUserinfoChanged: 2 n\Isgalamido\t\0\model\uriel/zael\hmodel\uriel/zael\g_redteam\\g_blueteam\\c1\5\c2\5\hc\100\w\0\l\0\tt\0\tl\0";
const MOCINHA: &str = r"21:53 ClientUserinfoChanged: 3 n\Mocinha\t\0\model\sarge\hmodel\sarge\g_redteam\\g_blueteam\\c1\4\c2\5\hc\95\w\0\l\0\tt\0\tl\0";
const KILL: &str = r"22:06 Kill: 2 3 7: Isgalamido killed Mocinha by MOD_ROCKET_SPLASH";

fn report_json(p: &QuakeLogParser) -> String {
    let mut games = serde_json::Map::new();
    for (k, game) in p.summaries().iter().enumerate() {
        let mut kills = serde_json::Map::new();
        for name in game.players() {
            kills.insert(name.clone(), Value::from(game.kill_count(name).unwrap()));
        }
        let mut means = serde_json::Map::new();
        for cause in game.causes() {
            means.insert(cause.clone(), Value::from(game.cause_count(cause).unwrap()));
        }
        let mut entry = serde_json::Map::new();
        entry.insert("total_kills".to_string(), Value::from(game.total_kills()));
        entry.insert(
            "players".to_string(),
            Value::Array(game.players().iter().map(|n| Value::from(n.clone())).collect()),
        );
        entry.insert("kills".to_string(), Value::Object(kills));
        entry.insert("kills_by_means".to_string(), Value::Object(means));
        games.insert(game_id(k + 1), Value::Object(entry));
    }
    serde_json::to_string_pretty(&Value::Object(games)).unwrap()
}

#[test]
fn should_process_connected_player_event() {
    let mut p = QuakeLogParser::new();
    let game_init = GAME_INIT.to_string();
    let connected_player = r"21:51 ClientUserinfoChanged: 3 n\Dono da Bola\t\0\model\sarge/krusade\hmodel\sarge/krusade\g_redteam\\g_blueteam\\c1\5\c2\5\hc\95\w\0\l\0\tt\0\tl\0".to_string();

    let result = p.read_line(game_init);
    assert!(result.is_ok());
    let result = p.read_line(connected_player);
    assert!(result.is_ok());

    assert_eq!(p.current_game_id(), "game_1");
    assert!(report_json(&p).contains("Dono da Bola"));
}

#[test]
fn should_process_kill_event() {
    let mut p = QuakeLogParser::new();
    let game_init = GAME_INIT.to_string();
    let connected_player_1 = ISGALAMIDO.to_string();
    let connected_player_2 = MOCINHA.to_string();
    let kill = KILL.to_string();

    let result = p.read_line(game_init);
    assert!(result.is_ok());
    let result = p.read_line(connected_player_1);
    assert!(result.is_ok());
    let result = p.read_line(connected_player_2);
    assert!(result.is_ok());
    let result = p.read_line(kill);
    assert!(result.is_ok());

    assert_eq!(p.current_game_id(), "game_1");
    assert!(report_json(&p).contains(r#""Isgalamido": 1"#));
    assert!(report_json(&p).contains(r#""MOD_ROCKET_SPLASH": 1"#));
}

#[test]
fn end_to_end_single_kill() {
    let mut p = QuakeLogParser::new();
    for line in [GAME_INIT, ISGALAMIDO, MOCINHA, KILL] {
        assert_eq!(p.read_line(line.to_string()), Ok(()));
    }
    let game = &p.summaries()[0];
    assert_eq!(game.kill_count("Isgalamido"), Some(1));
    assert_eq!(game.kill_count("Mocinha"), Some(0));
    assert_eq!(game.cause_count("MOD_ROCKET_SPLASH"), Some(1));
    assert_eq!(game.total_kills(), 1);
    assert_eq!(*game.players(), vec!["Isgalamido".to_string(), "Mocinha".to_string()]);
}

#[test]
fn total_kills_count_kill_lines_per_match() {
    let mut p = QuakeLogParser::new();
    let lines = [
        GAME_INIT,
        ISGALAMIDO,
        MOCINHA,
        KILL,
        r"22:18 Kill: 1022 2 19: <world> killed Isgalamido by MOD_FALLING",
        r"22:40 Item: 2 weapon_rocketlauncher",
        GAME_INIT,
        MOCINHA,
        r"23:00 Kill: 1022 3 22: <world> killed Mocinha by MOD_TRIGGER_HURT",
    ];
    for line in lines {
        assert_eq!(p.read_line(line.to_string()), Ok(()));
    }
    assert_eq!(p.summaries().len(), 2);
    assert_eq!(p.current_game_id(), "game_2");
    assert_eq!(p.summaries()[0].total_kills(), 2);
    assert_eq!(p.summaries()[1].total_kills(), 1);
    assert_eq!(p.summaries()[0].kill_count("Isgalamido"), Some(0));
    assert_eq!(*p.summaries()[1].players(), vec!["Mocinha".to_string()]);
    assert_eq!(p.summaries()[1].kill_count("Isgalamido"), None);
}

#[test]
fn unknown_victim_line_is_refused() {
    let mut p = QuakeLogParser::new();
    assert_eq!(p.read_line(GAME_INIT.to_string()), Ok(()));
    assert_eq!(p.read_line(ISGALAMIDO.to_string()), Ok(()));
    assert_eq!(p.read_line(KILL.to_string()), Err(ParseError::UnknownPlayer));
    assert_eq!(p.summaries()[0].total_kills(), 0);
}

#[test]
fn line_errors() {
    let mut p = QuakeLogParser::new();
    assert_eq!(p.read_line("".to_string()), Err(ParseError::MalformedLine));
    assert_eq!(p.read_line("  0:00  ".to_string()), Err(ParseError::MalformedLine));
    assert_eq!(p.read_line(KILL.to_string()), Err(ParseError::SessionNotFound));
    assert_eq!(p.read_line(MOCINHA.to_string()), Err(ParseError::SessionNotFound));
    assert_eq!(p.read_line("0:00 Kill: 1 2".to_string()), Err(ParseError::MalformedEvent));
    assert_eq!(p.read_line("0:00 ShutdownGame:".to_string()), Ok(()));
    assert_eq!(p.read_line("0:00  InitGame:".to_string()), Ok(()));
    assert!(p.summaries().is_empty());
    assert_eq!(p.current_game_id(), "game_0");
    assert_eq!(p.read_line("  0:00 InitGame: ".to_string()), Ok(()));
    assert_eq!(
        p.read_line(r"1:00 ClientUserinfoChanged: 2 \Name".to_string()),
        Err(ParseError::MalformedEvent)
    );
    assert!(p.has_room());
}

#[test]
fn game_ids_are_decimal() {
    assert_eq!(game_id(0), "game_0");
    assert_eq!(game_id(7), "game_7");
    assert_eq!(game_id(21), "game_21");
    assert_eq!(game_id(1030), "game_1030");
}

#[test]
fn trimmed_lines_are_read() {
    let mut p = QuakeLogParser::new();
    assert_eq!(p.read_trimmed_line("0:00 InitGame:"), Ok(()));
    assert_eq!(
        p.read_trimmed_line(r"1:00 ClientUserinfoChanged: 2 n\Big Name\t\0\model"),
        Ok(())
    );
    assert_eq!(p.read_trimmed_line(" 0:00 InitGame:"), Ok(()));
    assert_eq!(p.summaries().len(), 1);
    assert_eq!(*p.summaries()[0].players(), vec!["Big Name".to_string()]);
    assert_eq!(p.read_trimmed_line("0:00"), Err(ParseError::MalformedLine));
}
