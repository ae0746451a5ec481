//! A source, a sink and a checker on one stream.

use vip::axi4_stream::{
    Axi4StreamChecker, Axi4StreamSink, Axi4StreamSource, AxiStreamMonitorPorts,
    AxiStreamReceiverPorts, AxiStreamTransmitterPorts,
};
use vip::value::Value;

fn bits(words: Vec<u64>, width: u32) -> Value {
    let mask_xz = vec![0; words.len()];
    Value::Bits {
        words,
        mask_xz,
        width,
    }
}

fn bit(v: bool) -> Value {
    bits(vec![u64::from(v)], 1)
}

struct Stream {
    width: u32,
    source: Axi4StreamSource,
    sink: Axi4StreamSink,
    checker: Axi4StreamChecker,
    tx: AxiStreamTransmitterPorts,
    rx: AxiStreamReceiverPorts,
    failures: Vec<String>,
}

impl Stream {
    fn new(width: u32, source_stall: Option<u64>, sink_stall: Option<u64>) -> Stream {
        let n = width.div_ceil(64) as usize;
        Stream {
            width,
            source: Axi4StreamSource::on_build(width, source_stall, 11),
            sink: Axi4StreamSink::on_build(width, sink_stall, 22),
            checker: Axi4StreamChecker::on_build(Some(100)),
            tx: AxiStreamTransmitterPorts {
                tvalid: false,
                tready: bit(false),
                tdata: vec![0; n],
                tstrb: vec![0],
                tkeep: vec![0],
                tlast: false,
                tid: 0,
                tdest: 0,
                tuser: 0,
            },
            rx: AxiStreamReceiverPorts {
                tvalid: bit(false),
                tready: false,
                tdata: vec![0; n],
                tlast: bit(false),
            },
            failures: Vec::new(),
        }
    }

    fn clock(&mut self, rst: bool) {
        let rst = bit(rst);
        let seen = AxiStreamMonitorPorts {
            tvalid: bit(self.tx.tvalid),
            tready: bit(self.rx.tready),
            tdata: bits(self.tx.tdata.clone(), self.width),
            tstrb: bits(self.tx.tstrb.clone(), self.width / 8),
            tkeep: bits(self.tx.tkeep.clone(), self.width / 8),
            tlast: bit(self.tx.tlast),
            tid: bits(vec![self.tx.tid], 4),
            tdest: bits(vec![self.tx.tdest], 4),
            tuser: bits(vec![self.tx.tuser], 4),
        };
        self.tx.tready = bit(self.rx.tready);
        self.rx.tvalid = bit(self.tx.tvalid);
        self.rx.tdata = self.tx.tdata.clone();
        self.rx.tlast = bit(self.tx.tlast);
        assert!(self.checker.in_range(&rst, &seen));
        for f in self.checker.on_clock(&rst, &seen, true) {
            self.failures.push(f.message());
        }
        assert!(self.sink.in_range(&rst, &self.rx));
        self.source.on_clock(&rst, &mut self.tx);
        if let Some(f) = self.sink.on_clock(&rst, &mut self.rx) {
            self.failures.push(f.message());
        }
    }

    fn drain(&mut self) {
        for _ in 0..2000 {
            self.clock(false);
            if self.source.idle() == 1 {
                self.clock(false);
                return;
            }
        }
        panic!("the source never became idle");
    }
}

#[test]
fn stream_delivers_beats_in_order_under_backpressure() {
    let mut s = Stream::new(32, Some(100), Some(100));
    s.clock(true);
    for i in 0..40 {
        let data = bits(vec![0x1000 + i], 32);
        if i % 8 == 7 {
            s.source.send_last(&data).unwrap();
        } else {
            s.source.send(&data).unwrap();
        }
        s.sink.expect(&data).unwrap();
    }
    s.drain();
    assert_eq!(s.failures, Vec::<String>::new());
    assert_eq!(s.sink.beats(), 40);
    assert_eq!(s.sink.packets(), 5);
    assert_eq!(s.sink.idle(), 1);
    assert_eq!(s.checker.beats(), 40);
}

#[test]
fn stream_takes_one_beat_per_cycle_without_stalls() {
    let mut s = Stream::new(32, None, None);
    s.clock(false);
    s.source.random_traffic(20, 5);
    for _ in 0..22 {
        s.clock(false);
    }
    assert_eq!(s.sink.beats(), 20);
    assert_eq!(s.sink.packets(), 4);
    assert_eq!(s.failures, Vec::<String>::new());
}

#[test]
fn stream_carries_wide_data() {
    let mut s = Stream::new(128, None, Some(64));
    let data = bits(vec![0x0123_4567_89ab_cdef, 0xfedc_ba98_7654_3210], 128);
    s.source.send_last(&data).unwrap();
    s.drain();
    assert_eq!(s.sink.recv().unwrap(), data);
    assert_eq!(s.tx.tkeep, vec![0xffff]);
    assert!(s.sink.recv().is_err());
}

#[test]
fn stream_reset_drops_what_is_queued() {
    let mut s = Stream::new(32, None, None);
    s.source.random_traffic(10, 0);
    s.clock(false);
    assert_eq!(s.source.idle(), 0);
    s.clock(true);
    assert_eq!(s.source.idle(), 1);
    assert_eq!(s.source.queued(), 0);
    assert!(!s.tx.tvalid);
    assert!(!s.rx.tready);
}

#[test]
fn stream_mismatch_is_reported_once_per_beat() {
    let mut s = Stream::new(32, None, None);
    s.source.send(&bits(vec![1], 32)).unwrap();
    s.source.send(&bits(vec![2], 32)).unwrap();
    s.source.send(&bits(vec![3], 32)).unwrap();
    s.sink.expect(&bits(vec![1], 32)).unwrap();
    s.sink.expect(&bits(vec![5], 32)).unwrap();
    s.sink.expect(&bits(vec![3], 32)).unwrap();
    s.drain();
    assert_eq!(s.failures.len(), 1);
    assert_eq!(s.sink.idle(), 1);
}
