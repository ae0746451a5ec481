//! The signals that the port sets of each protocol name.

use vip::axi3::{Axi3MasterPorts, Axi3MonitorPorts, Axi3SlavePorts};
use vip::axi4_lite::{Axi4LiteMasterPorts, Axi4LiteMonitorPorts, Axi4LiteSlavePorts};
use vip::axi4_stream::{AxiStreamMonitorPorts, AxiStreamReceiverPorts, AxiStreamTransmitterPorts};
use vip::value::Value;

/// The members of [`Axi4LiteMonitorPorts`], each named in the value below.
fn lite_monitor() -> Vec<&'static str> {
    let _ = Axi4LiteMonitorPorts {
        awvalid: Value::Unit,
        awready: Value::Unit,
        awaddr: Value::Unit,
        awprot: Value::Unit,
        wvalid: Value::Unit,
        wready: Value::Unit,
        wdata: Value::Unit,
        wstrb: Value::Unit,
        bvalid: Value::Unit,
        bready: Value::Unit,
        bresp: Value::Unit,
        arvalid: Value::Unit,
        arready: Value::Unit,
        araddr: Value::Unit,
        arprot: Value::Unit,
        rvalid: Value::Unit,
        rready: Value::Unit,
        rdata: Value::Unit,
        rresp: Value::Unit,
    };
    vec![
        "awvalid",
        "awready",
        "awaddr",
        "awprot",
        "wvalid",
        "wready",
        "wdata",
        "wstrb",
        "bvalid",
        "bready",
        "bresp",
        "arvalid",
        "arready",
        "araddr",
        "arprot",
        "rvalid",
        "rready",
        "rdata",
        "rresp",
    ]
}

/// The members of [`Axi4LiteMasterPorts`], each named in the value below.
fn lite_driver() -> Vec<&'static str> {
    let _ = Axi4LiteMasterPorts {
        awvalid: false,
        awready: Value::Unit,
        awaddr: 0,
        awprot: 0,
        wvalid: false,
        wready: Value::Unit,
        wdata: vec![0],
        wstrb: vec![0],
        bvalid: Value::Unit,
        bready: false,
        bresp: 0,
        arvalid: false,
        arready: Value::Unit,
        araddr: 0,
        arprot: 0,
        rvalid: Value::Unit,
        rready: false,
        rdata: vec![0],
    };
    vec![
        "awvalid",
        "awready",
        "awaddr",
        "awprot",
        "wvalid",
        "wready",
        "wdata",
        "wstrb",
        "bvalid",
        "bready",
        "bresp",
        "arvalid",
        "arready",
        "araddr",
        "arprot",
        "rvalid",
        "rready",
        "rdata",
    ]
}

/// The members of [`Axi4LiteSlavePorts`], each named in the value below.
fn lite_receiver() -> Vec<&'static str> {
    let _ = Axi4LiteSlavePorts {
        awvalid: Value::Unit,
        awready: false,
        awaddr: 0,
        wvalid: Value::Unit,
        wready: false,
        wdata: vec![0],
        wstrb: vec![0],
        bvalid: false,
        bready: Value::Unit,
        bresp: 0,
        arvalid: Value::Unit,
        arready: false,
        araddr: 0,
        rvalid: false,
        rready: Value::Unit,
        rdata: vec![0],
        rresp: 0,
    };
    vec![
        "awvalid",
        "awready",
        "awaddr",
        "wvalid",
        "wready",
        "wdata",
        "wstrb",
        "bvalid",
        "bready",
        "bresp",
        "arvalid",
        "arready",
        "araddr",
        "rvalid",
        "rready",
        "rdata",
        "rresp",
    ]
}

/// The members of [`Axi3MonitorPorts`], each named in the value below.
fn axi3_monitor() -> Vec<&'static str> {
    let _ = Axi3MonitorPorts {
        awvalid: Value::Unit,
        awready: Value::Unit,
        awaddr: Value::Unit,
        awlen: Value::Unit,
        awsize: Value::Unit,
        awburst: Value::Unit,
        awid: Value::Unit,
        awlock: Value::Unit,
        wvalid: Value::Unit,
        wready: Value::Unit,
        wdata: Value::Unit,
        wstrb: Value::Unit,
        wlast: Value::Unit,
        wid: Value::Unit,
        bvalid: Value::Unit,
        bready: Value::Unit,
        bresp: Value::Unit,
        bid: Value::Unit,
        arvalid: Value::Unit,
        arready: Value::Unit,
        araddr: Value::Unit,
        arlen: Value::Unit,
        arsize: Value::Unit,
        arburst: Value::Unit,
        arid: Value::Unit,
        arlock: Value::Unit,
        rvalid: Value::Unit,
        rready: Value::Unit,
        rdata: Value::Unit,
        rresp: Value::Unit,
        rid: Value::Unit,
        rlast: Value::Unit,
    };
    vec![
        "awvalid",
        "awready",
        "awaddr",
        "awlen",
        "awsize",
        "awburst",
        "awid",
        "awlock",
        "wvalid",
        "wready",
        "wdata",
        "wstrb",
        "wlast",
        "wid",
        "bvalid",
        "bready",
        "bresp",
        "bid",
        "arvalid",
        "arready",
        "araddr",
        "arlen",
        "arsize",
        "arburst",
        "arid",
        "arlock",
        "rvalid",
        "rready",
        "rdata",
        "rresp",
        "rid",
        "rlast",
    ]
}

/// The members of [`Axi3MasterPorts`], each named in the value below.
fn axi3_driver() -> Vec<&'static str> {
    let _ = Axi3MasterPorts {
        awvalid: false,
        awready: Value::Unit,
        awaddr: 0,
        awlen: 0,
        awsize: 0,
        awburst: 0,
        awid: 0,
        awlock: 0,
        wvalid: false,
        wready: Value::Unit,
        wdata: vec![0],
        wstrb: vec![0],
        wlast: false,
        wid: 0,
        bvalid: Value::Unit,
        bready: false,
        bresp: 0,
        bid: 0,
        arvalid: false,
        arready: Value::Unit,
        araddr: 0,
        arlen: 0,
        arsize: 0,
        arburst: 0,
        arid: 0,
        arlock: 0,
        rvalid: Value::Unit,
        rready: false,
        rdata: vec![0],
        rid: 0,
        rlast: Value::Unit,
    };
    vec![
        "awvalid",
        "awready",
        "awaddr",
        "awlen",
        "awsize",
        "awburst",
        "awid",
        "awlock",
        "wvalid",
        "wready",
        "wdata",
        "wstrb",
        "wlast",
        "wid",
        "bvalid",
        "bready",
        "bresp",
        "bid",
        "arvalid",
        "arready",
        "araddr",
        "arlen",
        "arsize",
        "arburst",
        "arid",
        "arlock",
        "rvalid",
        "rready",
        "rdata",
        "rid",
        "rlast",
    ]
}

/// The members of [`Axi3SlavePorts`], each named in the value below.
fn axi3_receiver() -> Vec<&'static str> {
    let _ = Axi3SlavePorts {
        awvalid: Value::Unit,
        awready: false,
        awaddr: 0,
        awlen: 0,
        awsize: 0,
        awburst: 0,
        awid: 0,
        awlock: 0,
        wvalid: Value::Unit,
        wready: false,
        wdata: vec![0],
        wstrb: vec![0],
        wlast: Value::Unit,
        wid: 0,
        bvalid: false,
        bready: Value::Unit,
        bresp: 0,
        bid: 0,
        arvalid: Value::Unit,
        arready: false,
        araddr: 0,
        arlen: 0,
        arsize: 0,
        arburst: 0,
        arid: 0,
        arlock: 0,
        rvalid: false,
        rready: Value::Unit,
        rdata: vec![0],
        rresp: 0,
        rid: 0,
        rlast: false,
    };
    vec![
        "awvalid",
        "awready",
        "awaddr",
        "awlen",
        "awsize",
        "awburst",
        "awid",
        "awlock",
        "wvalid",
        "wready",
        "wdata",
        "wstrb",
        "wlast",
        "wid",
        "bvalid",
        "bready",
        "bresp",
        "bid",
        "arvalid",
        "arready",
        "araddr",
        "arlen",
        "arsize",
        "arburst",
        "arid",
        "arlock",
        "rvalid",
        "rready",
        "rdata",
        "rresp",
        "rid",
        "rlast",
    ]
}

/// The members of [`AxiStreamMonitorPorts`], each named in the value below.
fn stream_monitor() -> Vec<&'static str> {
    let _ = AxiStreamMonitorPorts {
        tvalid: Value::Unit,
        tready: Value::Unit,
        tdata: Value::Unit,
        tstrb: Value::Unit,
        tkeep: Value::Unit,
        tlast: Value::Unit,
        tid: Value::Unit,
        tdest: Value::Unit,
        tuser: Value::Unit,
    };
    vec![
        "tvalid",
        "tready",
        "tdata",
        "tstrb",
        "tkeep",
        "tlast",
        "tid",
        "tdest",
        "tuser",
    ]
}

/// The members of [`AxiStreamTransmitterPorts`], each named in the value below.
fn stream_driver() -> Vec<&'static str> {
    let _ = AxiStreamTransmitterPorts {
        tvalid: false,
        tready: Value::Unit,
        tdata: vec![0],
        tstrb: vec![0],
        tkeep: vec![0],
        tlast: false,
        tid: 0,
        tdest: 0,
        tuser: 0,
    };
    vec![
        "tvalid",
        "tready",
        "tdata",
        "tstrb",
        "tkeep",
        "tlast",
        "tid",
        "tdest",
        "tuser",
    ]
}

/// The members of [`AxiStreamReceiverPorts`], each named in the value below.
fn stream_receiver() -> Vec<&'static str> {
    let _ = AxiStreamReceiverPorts {
        tvalid: Value::Unit,
        tready: false,
        tdata: vec![0],
        tlast: Value::Unit,
    };
    vec![
        "tvalid",
        "tready",
        "tdata",
        "tlast",
    ]
}

/// A monitor must observe every signal that either side of the bus touches.
fn assert_monitor_covers(monitor: Vec<&str>, sides: [Vec<&str>; 2]) {
    for side in sides {
        for m in side {
            assert!(monitor.contains(&m), "monitor misses member `{m}`");
        }
    }
}

#[test]
fn monitors_cover_both_bus_sides() {
    assert_monitor_covers(lite_monitor(), [lite_driver(), lite_receiver()]);
    assert_monitor_covers(axi3_monitor(), [axi3_driver(), axi3_receiver()]);
    assert_monitor_covers(stream_monitor(), [stream_driver(), stream_receiver()]);
}
