//! Whole reads, against a cluster that lives in memory.

use std::collections::HashMap;

use mikui::kafka::lens::LensMode;
use mikui::kafka::reader::{
    offsets_found, position_failure, watermark_failure, NextStep, ReadDepth, Reader, Watermarks,
    SEARCH_STOPPED,
};
use mikui::kafka::rounds::{Approach, Frontier, ReadStep, RoundStep};
use mikui::kafka::store::MessageStore;
use mikui::kafka::sweep::{Event, Incoming};
use mikui::kafka::types::{
    LoadMoreParams, MessageFilter, OpenTopicParams, OpenTopicResult, QuotaInfo, ReadRange,
    SortColumn, SortDirection, SortSpec, StartFrom, TopicInfo,
};
use mikui::kafka::view::RowTexts;

/// One record: an offset, a time, a key and a body.
type Record = (i64, i64, &'static str, String);

struct Cluster {
    logs: HashMap<i32, Vec<Record>>,
    positions: HashMap<i32, i64>,
    batch: usize,
    seeks: usize,
}

impl Cluster {
    fn new(logs: Vec<Vec<Record>>) -> Self {
        Cluster {
            logs: logs.into_iter().enumerate().map(|(i, l)| (i as i32, l)).collect(),
            positions: HashMap::new(),
            batch: 3,
            seeks: 0,
        }
    }

    fn bounds(&self, p: i32) -> (i64, i64) {
        let log = &self.logs[&p];
        match (log.first(), log.last()) {
            (Some(first), Some(last)) => (first.0, last.0 + 1),
            _ => (0, 0),
        }
    }

    fn offset_at(&self, p: i32, at: Option<i64>) -> (i32, i64) {
        let found = at.and_then(|at| self.logs[&p].iter().find(|r| r.1 >= at).map(|r| r.0));
        (p, found.unwrap_or(-1))
    }

    /// A few records of each partition that is open, then the ends of the logs.
    fn consume(&mut self) -> Vec<Event> {
        let mut partitions: Vec<i32> = self.positions.keys().copied().collect();
        partitions.sort_unstable();
        let mut events = Vec::new();
        for p in partitions {
            for _ in 0..self.batch {
                let at = self.positions[&p];
                match self.logs[&p].iter().find(|r| r.0 >= at) {
                    Some(r) => {
                        events.push(message(p, r));
                        self.positions.insert(p, r.0 + 1);
                    }
                    None => events.push(Event::Eof { partition: p, offset: self.bounds(p).1 }),
                }
            }
        }
        events
    }
}

fn message(partition: i32, r: &Record) -> Event {
    Event::Message(Incoming {
        partition,
        offset: r.0,
        timestamp: r.1,
        key: r.2.as_bytes().to_vec(),
        value: r.3.as_bytes().to_vec(),
        headers: vec![("h".to_string(), b"1".to_vec())],
        decoded: None,
    })
}

fn no_texts(reader: &Reader) -> Vec<Option<String>> {
    vec![None; reader.store.committed_len() - reader.view_scanned]
}

fn finish(reader: &mut Reader, interrupted: bool) -> OpenTopicResult {
    reader.publish();
    let texts = no_texts(reader);
    reader.finish_read(interrupted, &texts, QuotaInfo::default())
}

/// Begins a round; the result where the read ends there.
fn begin(reader: &mut Reader, cluster: &mut Cluster, now: u64) -> Option<OpenTopicResult> {
    match reader.begin_round(now, None, None, 5) {
        RoundStep::Finish { interrupted } => Some(finish(reader, interrupted)),
        RoundStep::Position(positions) => {
            for p in positions {
                match p.approach {
                    Approach::Stay => assert_eq!(cluster.positions[&p.partition], p.offset),
                    Approach::Open => {}
                    Approach::Seek => cluster.seeks += 1,
                }
                cluster.positions.insert(p.partition, p.offset);
                reader.note_positioned(p.partition, p.offset);
            }
            None
        }
    }
}

/// Leads a read to its end.
fn drive(reader: &mut Reader, cluster: &mut Cluster) -> Result<OpenTopicResult, String> {
    for _ in 0..10_000 {
        match reader.continue_read(0) {
            NextStep::Idle => panic!("no read goes on"),
            NextStep::OffsetsDeadline => return Ok(finish(reader, true)),
            NextStep::RoundStalled => {
                reader.rollback_round();
                return Ok(finish(reader, true));
            }
            NextStep::FetchWatermarks(asked) => {
                let fetched = asked
                    .iter()
                    .map(|&partition| {
                        let (low, high) = cluster.bounds(partition);
                        Watermarks { partition, low, high }
                    })
                    .collect();
                if !reader.step_watermarks(&fetched) {
                    continue;
                }
                let (from, to) = reader.moments();
                let at = |moment| {
                    let asked = reader.cursors.iter();
                    let found = asked.map(|c| cluster.offset_at(c.partition, moment)).collect();
                    offsets_found(&found)
                };
                let (from, to) = (at(from), at(to));
                reader.apply_range(&from, &to)?;
                if let Some(result) = begin(reader, cluster, 0) {
                    return Ok(result);
                }
            }
            NextStep::Consume => match reader.step_reading(&cluster.consume()) {
                ReadStep::More => {}
                ReadStep::BufferFull => return Ok(finish(reader, true)),
                ReadStep::Failed { message, .. } => return Err(message),
                ReadStep::RoundComplete => {
                    reader.close_round(500);
                    reader.publish();
                    let texts = no_texts(reader);
                    reader.extend_view(&texts);
                    if let Some(result) = begin(reader, cluster, 0) {
                        return Ok(result);
                    }
                }
            },
        }
    }
    panic!("the read does not end");
}

fn resume(reader: &mut Reader, cluster: &mut Cluster, additional: usize) -> OpenTopicResult {
    cluster.positions.clear();
    let additional = reader.start_load_more(LoadMoreParams { additional }).unwrap();
    reader.resume(additional, 0);
    match begin(reader, cluster, 0) {
        Some(result) => result,
        None => drive(reader, cluster).unwrap(),
    }
}

fn params(start_from: StartFrom, limit: usize) -> OpenTopicParams {
    OpenTopicParams {
        topic: "orders".into(),
        start_from,
        limit,
        partitions: None,
        filter: MessageFilter::default(),
        range: ReadRange::default(),
        sort: None,
    }
}

fn reader_of(cluster: &Cluster) -> Reader {
    let mut reader = Reader::new();
    reader.set_topics(vec![TopicInfo { name: "orders".into(), partitions: cluster.logs.len() }]);
    reader
}

fn open(
    reader: &mut Reader,
    cluster: &mut Cluster,
    params: OpenTopicParams,
    depth: ReadDepth,
) -> Result<OpenTopicResult, String> {
    cluster.positions.clear();
    let step = reader.prepare_open(&params, depth);
    let plan = step.outcome?;
    reader.start_open_topic(params, depth, plan, 0);
    drive(reader, cluster)
}

/// Two partitions of forty records each, their times interleaved.
fn cluster() -> Cluster {
    let log = |p: i64| {
        (0..40)
            .map(|i| (100 + i, 1_000 + 10 * i + p, "key", format!("p{p}-{i}")))
            .collect::<Vec<Record>>()
    };
    Cluster::new(vec![log(0), log(1)])
}

fn shown(reader: &Reader) -> Vec<(i32, i64)> {
    reader
        .view
        .iter()
        .map(|&i| {
            let m = reader.store.get(i).unwrap();
            (m.partition, m.offset)
        })
        .collect()
}

fn times(reader: &Reader) -> Vec<i64> {
    reader.view.iter().map(|&i| reader.store.get(i).unwrap().timestamp).collect()
}

#[test]
fn everything_is_read_and_shown_newest_first() {
    let mut cluster = cluster();
    let mut reader = reader_of(&cluster);
    let result =
        open(&mut reader, &mut cluster, params(StartFrom::Newest, 1_000), ReadDepth::Window).unwrap();

    assert_eq!(result.total, 80);
    assert_eq!(result.loaded, 80);
    assert!(!result.truncated);
    assert_eq!(result.scope.scanned, 80);
    assert_eq!(result.scope.approx_total, Some(80));
    let t = times(&reader);
    assert!(t.windows(2).all(|w| w[0] > w[1]));
    assert_eq!(shown(&reader)[0], (1, 139));
}

#[test]
fn everything_is_read_and_shown_oldest_first_without_a_seek() {
    let mut cluster = cluster();
    let mut reader = reader_of(&cluster);
    let result =
        open(&mut reader, &mut cluster, params(StartFrom::Oldest, 1_000), ReadDepth::Window).unwrap();

    assert_eq!(result.total, 80);
    let t = times(&reader);
    assert!(t.windows(2).all(|w| w[0] < w[1]));
    assert_eq!(shown(&reader)[0], (0, 100));
}

#[test]
fn a_page_ends_and_the_next_one_goes_on_from_there() {
    let mut cluster = cluster();
    let mut reader = reader_of(&cluster);
    let first =
        open(&mut reader, &mut cluster, params(StartFrom::Newest, 15), ReadDepth::Window).unwrap();
    assert!(first.truncated);
    assert_eq!(first.scope.scanned, 30);
    let head = shown(&reader);

    let more = resume(&mut reader, &mut cluster, 15);
    assert!(more.truncated);
    assert_eq!(shown(&reader)[..head.len()], head[..]);

    let rest = resume(&mut reader, &mut cluster, 1_000);
    assert!(!rest.truncated);
    assert_eq!(rest.loaded, 80);
    let mut all = shown(&reader);
    all.sort_unstable();
    all.dedup();
    assert_eq!(all.len(), 80);
    let t = times(&reader);
    assert!(t.windows(2).all(|w| w[0] > w[1]));
}

#[test]
fn a_range_of_offsets_is_read_whole() {
    let mut cluster = cluster();
    let mut reader = reader_of(&cluster);
    let mut p = params(StartFrom::Newest, 1);
    p.range = ReadRange { from_offset: Some(110), to_offset: Some(119), ..ReadRange::default() };
    p.partitions = Some(vec![1]);
    let result = open(&mut reader, &mut cluster, p, ReadDepth::Window).unwrap();
    assert_eq!(result.loaded, 10);
    assert!(!result.truncated);
    assert_eq!(result.scope.approx_total, Some(10));
    assert_eq!(shown(&reader), (110..120).map(|o| (1, o)).collect::<Vec<_>>());
}

#[test]
fn a_range_of_time_is_read_whole() {
    let mut cluster = cluster();
    let mut reader = reader_of(&cluster);
    let mut p = params(StartFrom::Newest, 1);
    p.range = ReadRange {
        from_timestamp: Some(1_100),
        to_timestamp: Some(1_130),
        ..ReadRange::default()
    };
    open(&mut reader, &mut cluster, p, ReadDepth::Window).unwrap();
    assert_eq!(times(&reader), vec![1_100, 1_101, 1_110, 1_111, 1_120, 1_121, 1_130]);
}

#[test]
fn a_range_without_messages_is_explained() {
    let mut cluster = cluster();
    let mut reader = reader_of(&cluster);
    let mut p = params(StartFrom::Newest, 10);
    p.range = ReadRange { from_timestamp: Some(9_000), ..ReadRange::default() };
    let e = open(&mut reader, &mut cluster, p, ReadDepth::Window).unwrap_err();
    assert!(e.starts_with("no messages in the selected time range ("), "{e}");
    assert!(reader.pending.is_none());

    let mut p = params(StartFrom::Newest, 10);
    p.range = ReadRange { from_offset: Some(5_000), ..ReadRange::default() };
    let e = open(&mut reader, &mut cluster, p, ReadDepth::Window).unwrap_err();
    assert!(e.contains("is not in the topic yet"), "{e}");

    let mut p = params(StartFrom::Newest, 10);
    p.range = ReadRange { to_offset: Some(5), ..ReadRange::default() };
    assert!(open(&mut reader, &mut cluster, p, ReadDepth::Window).is_err());
}

#[test]
fn a_topic_that_cannot_be_opened_says_why() {
    let mut cluster = cluster();
    let mut reader = reader_of(&cluster);
    let mut p = params(StartFrom::Newest, 10);
    p.topic = "secret".into();
    assert_eq!(
        open(&mut reader, &mut cluster, p, ReadDepth::Window).unwrap_err(),
        "topic 'secret' is not on this cluster, or the current Kafka user has no access to it"
    );

    let mut p = params(StartFrom::Newest, 10);
    p.partitions = Some(vec![2]);
    assert_eq!(
        open(&mut reader, &mut cluster, p, ReadDepth::Window).unwrap_err(),
        "partition 2 is out of range; the topic has 2"
    );

    let mut empty = Reader::new();
    empty.set_topics(vec![TopicInfo { name: "orders".into(), partitions: 0 }]);
    let step = empty.prepare_open(&params(StartFrom::Newest, 10), ReadDepth::Window);
    assert_eq!(step.outcome.err().unwrap(), "topic 'orders' has no partitions");
}

#[test]
fn a_search_keeps_what_passes_and_counts_the_rest() {
    let mut cluster = cluster();
    let mut reader = reader_of(&cluster);
    let mut p = params(StartFrom::Newest, 1);
    p.filter.value = "P1-7".into();
    let result = open(&mut reader, &mut cluster, p, ReadDepth::WholeTopic).unwrap();
    assert_eq!(result.loaded, 1);
    assert_eq!(result.total, 1);
    assert_eq!(result.scope.scanned, 80);
    assert!(!result.truncated);
    assert_eq!(shown(&reader), vec![(1, 107)]);
}

#[test]
fn a_search_without_a_question_is_refused_and_breaks_nothing() {
    let cluster = cluster();
    let mut reader = reader_of(&cluster);
    let p = params(StartFrom::Newest, 10);
    let plan = reader.prepare_open(&p, ReadDepth::Window).outcome.unwrap();
    reader.start_open_topic(p, ReadDepth::Window, plan, 0);

    let step = reader.prepare_open(&params(StartFrom::Newest, 10), ReadDepth::WholeTopic);
    assert!(step.stopped.is_none());
    assert!(step.outcome.err().unwrap().starts_with("a deep search needs a filter"));
    assert!(reader.pending.is_some());

    // An ordinary request takes the place of the read.
    let step = reader.prepare_open(&params(StartFrom::Newest, 10), ReadDepth::Window);
    assert_eq!(step.stopped, Some(vec![]));
    assert!(reader.pending.is_none());
}

#[test]
fn only_a_search_can_be_stopped() {
    let cluster = cluster();
    let mut reader = reader_of(&cluster);
    assert!(reader.stop_search().is_none());

    let p = params(StartFrom::Newest, 10);
    let plan = reader.prepare_open(&p, ReadDepth::Window).outcome.unwrap();
    reader.start_open_topic(p, ReadDepth::Window, plan, 0);
    assert!(!reader.progress(QuotaInfo::default()).searching);
    assert!(reader.stop_search().is_none());
    assert!(reader.pending.is_some());

    let mut p = params(StartFrom::Newest, 10);
    p.filter.key = "k".into();
    let plan = reader.prepare_open(&p, ReadDepth::WholeTopic).outcome.unwrap();
    reader.start_open_topic(p, ReadDepth::WholeTopic, plan, 0);
    let progress = reader.progress(QuotaInfo::default());
    assert!(progress.searching);
    assert!(!progress.done);
    assert_eq!(progress.topic.as_deref(), Some("orders"));
    assert_eq!(reader.stop_search(), Some(vec![]));
    assert!(reader.pending.is_none());
    assert_eq!(SEARCH_STOPPED, "search stopped");
}

#[test]
fn more_is_read_only_of_what_is_open_and_idle() {
    let cluster = cluster();
    let mut reader = reader_of(&cluster);
    let more = LoadMoreParams { additional: 10 };
    assert_eq!(reader.start_load_more(more).unwrap_err(), "no topic is open");
    let p = params(StartFrom::Newest, 10);
    let plan = reader.prepare_open(&p, ReadDepth::Window).outcome.unwrap();
    reader.start_open_topic(p, ReadDepth::Window, plan, 0);
    assert_eq!(reader.start_load_more(more).unwrap_err(), "a read is already in progress");
    assert_eq!(reader.drop_read(), Some(vec![]));
    assert_eq!(reader.start_load_more(more).unwrap_err(), "nothing loaded yet");
}

#[test]
fn a_full_buffer_undoes_the_round_and_keeps_the_rest() {
    let mut cluster = cluster();
    let mut reader = reader_of(&cluster);
    reader.store = MessageStore::new(400);
    let result =
        open(&mut reader, &mut cluster, params(StartFrom::Newest, 1_000), ReadDepth::Window).unwrap();
    assert!(result.truncated);
    assert!(result.loaded < 80);
    let t = times(&reader);
    assert!(t.windows(2).all(|w| w[0] > w[1]));
    assert_eq!(reader.scanned as usize, reader.store.len());
}

#[test]
fn a_failed_read_is_undone_and_given_up() {
    let mut cluster = cluster();
    let mut reader = reader_of(&cluster);
    let p = params(StartFrom::Newest, 10);
    let plan = reader.prepare_open(&p, ReadDepth::Window).outcome.unwrap();
    reader.start_open_topic(p, ReadDepth::Window, plan, 0);
    let bounds = vec![
        Watermarks { partition: 0, low: 100, high: 140 },
        Watermarks { partition: 1, low: 100, high: 140 },
    ];
    assert!(reader.step_watermarks(&bounds));
    reader.apply_range(&vec![], &vec![]).unwrap();
    assert!(begin(&mut reader, &mut cluster, 0).is_none());

    let taken = vec![message(1, &(130, 5, "k", "v".to_string()))];
    assert!(matches!(reader.step_reading(&taken), ReadStep::More));
    assert_eq!(reader.store.len(), 1);
    assert_eq!(reader.scanned, 1);
    match reader.step_reading(&vec![Event::Failure("broken pipe".into())]) {
        ReadStep::Failed { message, open_partitions } => {
            assert_eq!(message, "read failed: broken pipe");
            assert_eq!(open_partitions, vec![0, 1]);
        }
        _ => panic!("the failure was not noticed"),
    }
    assert_eq!(reader.store.len(), 0);
    assert_eq!(reader.scanned, 0);
    assert!(reader.pending.is_none());
}

#[test]
fn deadlines_are_kept() {
    let cluster = cluster();
    let mut reader = reader_of(&cluster);
    let p = params(StartFrom::Newest, 10);
    let plan = reader.prepare_open(&p, ReadDepth::Window).outcome.unwrap();
    reader.start_open_topic(p, ReadDepth::Window, plan, 1_000);
    assert!(matches!(reader.continue_read(30_999), NextStep::FetchWatermarks(_)));
    assert!(matches!(reader.continue_read(31_000), NextStep::OffsetsDeadline));
    let bounds = vec![Watermarks { partition: 0, low: 0, high: 5 }];
    assert!(!reader.step_watermarks(&bounds));
    let bounds = vec![Watermarks { partition: 1, low: 0, high: 5 }];
    assert!(reader.step_watermarks(&bounds));
    reader.apply_range(&vec![], &vec![]).unwrap();
    assert!(matches!(reader.begin_round(2_000, None, None, 5), RoundStep::Position(_)));
    assert!(matches!(reader.continue_read(21_999), NextStep::Consume));
    assert!(matches!(reader.continue_read(22_000), NextStep::RoundStalled));
    reader.rollback_round();
    assert!(matches!(
        reader.begin_round(31_000, None, None, 5),
        RoundStep::Finish { interrupted: true }
    ));
}

#[test]
fn a_partition_that_brought_nothing_holds_the_rest_back() {
    let mut cluster = cluster();
    let mut reader = reader_of(&cluster);
    let p = params(StartFrom::Newest, 100);
    let plan = reader.prepare_open(&p, ReadDepth::Window).outcome.unwrap();
    reader.start_open_topic(p, ReadDepth::Window, plan, 0);
    let bounds = vec![
        Watermarks { partition: 0, low: 100, high: 140 },
        Watermarks { partition: 1, low: 100, high: 140 },
    ];
    reader.step_watermarks(&bounds);
    assert_eq!(reader.safe_frontier(), Frontier::Nothing);
    reader.apply_range(&vec![], &vec![]).unwrap();
    assert_eq!(reader.active_partitions(), 2);
    assert!(begin(&mut reader, &mut cluster, 0).is_none());
    reader.step_reading(&vec![message(1, &(130, 5, "k", "v".to_string()))]);
    assert_eq!(reader.safe_frontier(), Frontier::Nothing);
    reader.step_reading(&vec![message(0, &(130, 7, "k", "v".to_string()))]);
    assert_eq!(reader.safe_frontier(), Frontier::Beyond(7));
}

#[test]
fn a_filter_and_an_order_rebuild_the_view() {
    let mut cluster = cluster();
    let mut reader = reader_of(&cluster);
    open(&mut reader, &mut cluster, params(StartFrom::Newest, 1_000), ReadDepth::Window).unwrap();

    reader.set_filter(MessageFilter { value: "p0-".into(), ..MessageFilter::default() });
    assert!(reader.questions().is_empty());
    let texts = no_texts(&reader);
    assert_eq!(reader.rebuild_view(&texts), 40);

    reader.set_sort(Some(SortSpec {
        column: SortColumn::Offset,
        direction: SortDirection::Asc,
    }));
    let texts = no_texts(&reader);
    assert_eq!(reader.rebuild_view(&texts), 40);
    assert_eq!(shown(&reader)[0], (0, 100));
    assert_eq!(shown(&reader)[39], (0, 139));
    assert_eq!(reader.find_message(0, 139), Ok(Some(39)));
    assert_eq!(reader.find_message(1, 139), Ok(None));
    assert_eq!(Reader::new().find_message(0, 0), Err("no topic is open".to_string()));
}

#[test]
fn a_search_in_decoded_bodies_asks_for_the_undecided_alone() {
    let mut cluster = cluster();
    let mut reader = reader_of(&cluster);
    reader.set_decoder(true, LensMode::Off);
    open(&mut reader, &mut cluster, params(StartFrom::Oldest, 1_000), ReadDepth::Window).unwrap();
    reader.set_filter(MessageFilter {
        value: "p0-1".into(),
        search_decoded: true,
        ..MessageFilter::default()
    });
    let questions = reader.questions();
    // Eleven bodies show it in their bytes.
    assert_eq!(questions.len(), 80 - 11);
    let mut texts = no_texts(&reader);
    texts[questions[0]] = Some("{\"x\": \"p0-1\"}".into());
    assert_eq!(reader.rebuild_view(&texts), 12);
}

#[test]
fn rows_bodies_and_raw_messages_come_by_row() {
    let mut cluster = cluster();
    let mut reader = reader_of(&cluster);
    open(&mut reader, &mut cluster, params(StartFrom::Oldest, 1_000), ReadDepth::Window).unwrap();

    let rows = reader.window_rows(78, 10);
    assert_eq!(rows.len(), 2);
    let texts = vec![
        RowTexts { key: None, value: None },
        RowTexts { key: Some(Ok("\"K\"".into())), value: Some(Err("no schema".into())) },
    ];
    let window = reader.window(78, 10, texts);
    assert_eq!(window.len(), 2);
    assert_eq!(window[0].index, 78);
    assert_eq!(window[0].key, "key");
    assert_eq!(window[0].preview, "p0-39");
    assert_eq!(window[1].key, "K");
    assert_eq!(window[1].decode_error.as_deref(), Some("no schema"));
    assert_eq!(window[1].value_size, 5);
    assert!(reader.window_rows(80, 10).is_empty());
    assert!(reader.window(80, 10, vec![]).is_empty());

    let full = reader.body(0, None, None).unwrap();
    assert_eq!((full.partition, full.offset, full.timestamp), (0, 100, 1_000));
    assert_eq!(full.value, "p0-0");
    assert_eq!(full.headers[0].key, "h");
    assert_eq!(full.headers[0].value, "1");
    let raw = reader.raw(0, None).unwrap();
    assert_eq!(raw.value, b"p0-0");
    assert_eq!(raw.key, "key");
    assert_eq!(reader.store_index(0), Ok(0));
    let e = "message index out of range";
    assert_eq!(reader.body(80, None, None).unwrap_err(), e);
    assert_eq!(reader.raw(80, None).unwrap_err(), e);
    assert_eq!(reader.store_index(80).unwrap_err(), e);
}

#[test]
fn closing_forgets_everything_of_the_topic() {
    let mut cluster = cluster();
    let mut reader = reader_of(&cluster);
    reader.set_decoder(true, LensMode::Off);
    open(&mut reader, &mut cluster, params(StartFrom::Oldest, 1_000), ReadDepth::Window).unwrap();
    assert_eq!(reader.memory_usage().memory_limit, reader.store.max_bytes());
    assert!(reader.close_topic().is_none());
    assert_eq!(reader.store.len(), 0);
    assert!(reader.view.is_empty());
    assert!(reader.open_topic.is_none());
    assert!(!reader.has_decoder);
    assert_eq!(reader.lens, LensMode::Auto);
    assert_eq!(reader.memory_usage().memory_bytes, 0);
    assert_eq!(reader.read_scope().approx_total, None);
}

#[test]
fn messages_without_time_are_shown_as_they_come() {
    let log = |p: i64| (0..5).map(|i| (i, 0, "k", format!("{p}{i}"))).collect::<Vec<Record>>();
    let mut cluster = Cluster::new(vec![log(0), log(1)]);
    let mut reader = reader_of(&cluster);
    let result =
        open(&mut reader, &mut cluster, params(StartFrom::Newest, 100), ReadDepth::Window).unwrap();
    assert_eq!(result.loaded, 10);
}

#[test]
fn failures_name_their_partition() {
    assert_eq!(watermark_failure(3, "timed out"), "can't read offsets of partition 3: timed out");
    assert_eq!(position_failure(-1, "no"), "can't position partition -1: no");
}

#[test]
fn a_partition_whose_bounds_stand_the_wrong_way_round_is_at_its_end() {
    let cluster = cluster();
    for range in [
        ReadRange::default(),
        ReadRange { from_offset: Some(5), ..ReadRange::default() },
    ] {
        let mut reader = reader_of(&cluster);
        let mut p = params(StartFrom::Oldest, 100);
        p.range = range;
        let plan = reader.prepare_open(&p, ReadDepth::Window).outcome.unwrap();
        reader.start_open_topic(p, ReadDepth::Window, plan, 0);
        let bounds = vec![
            Watermarks { partition: 0, low: 9, high: 4 },
            Watermarks { partition: 1, low: 0, high: 20 },
        ];
        assert!(reader.step_watermarks(&bounds));
        reader.apply_range(&vec![], &vec![]).unwrap();
        assert!(reader.cursors[0].exhausted);
        assert_eq!(reader.active_partitions(), 1);
        let total = if range.has_from() { 15 } else { 20 - 5 };
        assert_eq!(reader.read_scope().approx_total, Some(total));
    }
}
