use quant_engine::domain::{ClientOrderId, PriceTicks, QtyLots, Side};
use quant_engine::oms::OrderEvent;
use quant_engine::simulator::{
    FillModel, MarketObservation, MarketTrade, SimOrderRequest, SimulatedVenue, SimulatorConfig, SimulatorError,
    VenueOrderStatus, VenueOrderTruth, VenueReport,
};

fn price(value: i64) -> PriceTicks {
    PriceTicks::new(value).unwrap()
}

fn qty(value: i64) -> QtyLots {
    QtyLots::new(value).unwrap()
}

fn config(model: FillModel) -> SimulatorConfig {
    SimulatorConfig {
        send_latency_ns: 5,
        new_ack_latency_ns: 20,
        cancel_latency_ns: 10,
        cancel_ack_latency_ns: 5,
        fill_report_latency_ns: 2,
        maker_fee_bps: 2,
        fill_model: model,
    }
}

fn request(id: &str, side: Side, price_ticks: i64, qty_lots: i64) -> SimOrderRequest {
    SimOrderRequest {
        client_order_id: ClientOrderId::new(id),
        side,
        price: price(price_ticks),
        qty: qty(qty_lots),
        queue_ahead_lots: 0,
    }
}

fn observation(at_ns: u64, bid: i64, ask: i64, trade: Option<(Side, i64, i64)>) -> MarketObservation {
    MarketObservation {
        at_ns,
        best_bid: price(bid),
        best_ask: price(ask),
        trade: trade.map(|(aggressor, p, q)| MarketTrade { aggressor, price: price(p), qty: qty(q) }),
    }
}

#[test]
fn fill_report_can_arrive_before_new_ack() {
    let mut venue = SimulatedVenue::new(config(FillModel::L2Queue), "SIM", "paper", "BTC");
    venue.submit(request("order-1", Side::Buy, 100, 2), 1_000).unwrap();
    venue
        .on_market(MarketObservation {
            at_ns: 1_006,
            best_bid: price(100),
            best_ask: price(101),
            trade: Some(MarketTrade { aggressor: Side::Sell, price: price(100), qty: qty(2) }),
        })
        .unwrap();

    let reports = venue.drain_reports(2_000);
    assert!(matches!(reports[0].report, VenueReport::Fill(_)));
    assert_eq!(reports[0].at_ns, 1_008);
    assert_eq!(reports[1].report, VenueReport::NewAck);
    assert_eq!(reports[1].at_ns, 1_025);
}

#[test]
fn queue_model_consumes_ahead_before_filling() {
    let mut venue = SimulatedVenue::new(config(FillModel::L2Queue), "SIM", "paper", "BTC");
    let mut order = request("order-1", Side::Buy, 100, 3);
    order.queue_ahead_lots = 4;
    venue.submit(order, 0).unwrap();

    venue
        .on_market(MarketObservation {
            at_ns: 5,
            best_bid: price(100),
            best_ask: price(101),
            trade: Some(MarketTrade { aggressor: Side::Sell, price: price(100), qty: qty(3) }),
        })
        .unwrap();
    venue
        .on_market(MarketObservation {
            at_ns: 6,
            best_bid: price(100),
            best_ask: price(101),
            trade: Some(MarketTrade { aggressor: Side::Sell, price: price(100), qty: qty(3) }),
        })
        .unwrap();

    let reports = venue.drain_reports(10);
    let VenueReport::Fill(fill) = &reports[0].report else {
        panic!("expected a fill report");
    };
    assert_eq!(fill.qty, qty(2));
    assert_eq!(
        venue.reconcile(&ClientOrderId::new("order-1"), 10).unwrap(),
        VenueOrderTruth { status: VenueOrderStatus::Working, filled_lots: 2, remaining_lots: 1 }
    );
}

#[test]
fn cancel_in_flight_allows_fills_but_effective_cancel_blocks_them() {
    let mut venue = SimulatedVenue::new(config(FillModel::L2Queue), "SIM", "paper", "BTC");
    let id = ClientOrderId::new("order-1");
    venue.submit(request(id.as_str(), Side::Sell, 101, 2), 0).unwrap();
    venue.cancel(&id, 10).unwrap();

    venue
        .on_market(MarketObservation {
            at_ns: 15,
            best_bid: price(100),
            best_ask: price(101),
            trade: Some(MarketTrade { aggressor: Side::Buy, price: price(101), qty: qty(1) }),
        })
        .unwrap();
    venue
        .on_market(MarketObservation {
            at_ns: 20,
            best_bid: price(100),
            best_ask: price(101),
            trade: Some(MarketTrade { aggressor: Side::Buy, price: price(101), qty: qty(1) }),
        })
        .unwrap();

    assert_eq!(
        venue.reconcile(&id, 30).unwrap(),
        VenueOrderTruth { status: VenueOrderStatus::Cancelled, filled_lots: 1, remaining_lots: 1 }
    );
}

#[test]
fn no_fill_on_market_data_before_arrival() {
    let mut venue = SimulatedVenue::new(config(FillModel::Touch), "SIM", "paper", "BTC");
    venue.submit(request("early", Side::Buy, 100, 2), 100).unwrap();
    venue.on_market(observation(104, 99, 100, None)).unwrap();
    assert_eq!(
        venue.reconcile(&ClientOrderId::new("early"), 104).unwrap(),
        VenueOrderTruth { status: VenueOrderStatus::PendingArrival, filled_lots: 0, remaining_lots: 2 }
    );
    venue.on_market(observation(105, 99, 100, None)).unwrap();
    assert_eq!(
        venue.reconcile(&ClientOrderId::new("early"), 105).unwrap(),
        VenueOrderTruth { status: VenueOrderStatus::Filled, filled_lots: 2, remaining_lots: 0 }
    );
}

#[test]
fn touch_and_trade_through_models() {
    let mut touch = SimulatedVenue::new(config(FillModel::Touch), "SIM", "paper", "BTC");
    touch.submit(request("b", Side::Buy, 100, 1), 0).unwrap();
    touch.submit(request("s", Side::Sell, 105, 1), 0).unwrap();
    touch.on_market(observation(10, 99, 101, None)).unwrap();
    assert_eq!(touch.reconcile(&ClientOrderId::new("b"), 10).unwrap().filled_lots, 0);
    touch.on_market(observation(11, 105, 106, None)).unwrap();
    assert_eq!(touch.reconcile(&ClientOrderId::new("s"), 11).unwrap().filled_lots, 1);
    assert_eq!(touch.reconcile(&ClientOrderId::new("b"), 11).unwrap().filled_lots, 0);

    let mut through = SimulatedVenue::new(config(FillModel::TradeThrough), "SIM", "paper", "BTC");
    through.submit(request("b", Side::Buy, 100, 3), 0).unwrap();
    through.on_market(observation(10, 99, 101, Some((Side::Sell, 100, 5)))).unwrap();
    assert_eq!(through.reconcile(&ClientOrderId::new("b"), 10).unwrap().filled_lots, 0);
    through.on_market(observation(11, 98, 101, Some((Side::Buy, 99, 5)))).unwrap();
    assert_eq!(through.reconcile(&ClientOrderId::new("b"), 11).unwrap().filled_lots, 0);
    through.on_market(observation(12, 98, 101, Some((Side::Sell, 99, 1)))).unwrap();
    assert_eq!(through.reconcile(&ClientOrderId::new("b"), 12).unwrap().filled_lots, 3);
}

#[test]
fn fills_get_sequential_execution_ids_in_client_id_order_and_fees() {
    let mut venue = SimulatedVenue::new(config(FillModel::Touch), "SIM", "paper", "BTC");
    venue.submit(request("zeta", Side::Buy, 10_000, 2), 0).unwrap();
    venue.submit(request("alpha", Side::Buy, 10_000, 3), 0).unwrap();
    venue.on_market(observation(10, 9_999, 10_000, None)).unwrap();
    let reports = venue.drain_reports(12);
    assert_eq!(reports.len(), 2);
    let VenueReport::Fill(first) = &reports[0].report else {
        panic!("expected a fill report");
    };
    let VenueReport::Fill(second) = &reports[1].report else {
        panic!("expected a fill report");
    };
    assert_eq!(reports[0].client_order_id, ClientOrderId::new("alpha"));
    assert_eq!(first.key.execution_id, "sim-0");
    assert_eq!(first.key.venue, "SIM");
    assert_eq!(first.key.account, "paper");
    assert_eq!(first.key.instrument, "BTC");
    assert_eq!(first.fee_quote, 6);
    assert_eq!(reports[1].client_order_id, ClientOrderId::new("zeta"));
    assert_eq!(second.key.execution_id, "sim-1");
    assert_eq!(second.fee_quote, 4);
    // the acknowledgements are not due yet and stay queued
    let acks = venue.drain_reports(25);
    assert_eq!(acks.len(), 2);
    assert_eq!(acks[0].client_order_id, ClientOrderId::new("zeta"));
    assert_eq!(acks[1].client_order_id, ClientOrderId::new("alpha"));
    assert!(venue.drain_reports(1_000).is_empty());
}

#[test]
fn venue_refuses_bad_requests() {
    let mut venue = SimulatedVenue::new(config(FillModel::L2Queue), "SIM", "paper", "BTC");
    let mut bad = request("q", Side::Buy, 100, 1);
    bad.queue_ahead_lots = -1;
    assert_eq!(venue.submit(bad, 0), Err(SimulatorError::InvalidQueueAhead(-1)));
    venue.submit(request("q", Side::Buy, 100, 1), 0).unwrap();
    assert_eq!(
        venue.submit(request("q", Side::Buy, 100, 1), 0),
        Err(SimulatorError::DuplicateClientOrderId(ClientOrderId::new("q")))
    );
    assert_eq!(venue.submit(request("late", Side::Buy, 100, 1), u64::MAX), Err(SimulatorError::ArithmeticOverflow));
    assert_eq!(
        venue.cancel(&ClientOrderId::new("nope"), 0),
        Err(SimulatorError::UnknownOrder(ClientOrderId::new("nope")))
    );
    assert_eq!(
        venue.reconcile(&ClientOrderId::new("nope"), 0),
        Err(SimulatorError::UnknownOrder(ClientOrderId::new("nope")))
    );
    venue.on_market(observation(50, 99, 100, None)).unwrap();
    assert_eq!(
        venue.on_market(observation(49, 99, 100, None)),
        Err(SimulatorError::InvalidMarketTime { previous_ns: 50, received_ns: 49 })
    );
    assert_eq!(
        venue.on_market(observation(60, 100, 100, None)),
        Err(SimulatorError::CrossedMarket { best_bid: 100, best_ask: 100 })
    );
}

#[test]
fn cancel_is_not_immediate_and_repeats_are_harmless() {
    let mut venue = SimulatedVenue::new(config(FillModel::L2Queue), "SIM", "paper", "BTC");
    let id = ClientOrderId::new("c");
    venue.submit(request("c", Side::Buy, 100, 2), 0).unwrap();
    venue.cancel(&id, 1).unwrap();
    assert_eq!(
        venue.reconcile(&id, 10).unwrap(),
        VenueOrderTruth { status: VenueOrderStatus::PendingCancel, filled_lots: 0, remaining_lots: 2 }
    );
    venue.cancel(&id, 12).unwrap();
    // effective at max(1, 5) + 10 = 15, confirmed at 20
    assert_eq!(venue.cancel(&id, 15), Err(SimulatorError::OrderAlreadyTerminal(id.clone())));
    let reports = venue.drain_reports(100);
    assert_eq!(reports.len(), 2);
    assert_eq!((reports[0].at_ns, &reports[0].report), (20, &VenueReport::CancelAck));
    assert_eq!((reports[1].at_ns, &reports[1].report), (25, &VenueReport::NewAck));
    assert!(matches!(reports[0].report.to_order_event(), OrderEvent::CancelAck));
    assert!(matches!(reports[1].report.to_order_event(), OrderEvent::NewAck));
}

#[test]
fn simulator_errors_have_messages() {
    let id = ClientOrderId::new("o-1");
    assert_eq!(SimulatorError::DuplicateClientOrderId(id.clone()).message(), "duplicate client order id: o-1");
    assert_eq!(SimulatorError::UnknownOrder(id.clone()).message(), "unknown order: o-1");
    assert_eq!(SimulatorError::InvalidQueueAhead(-3).message(), "queue ahead cannot be negative: -3");
    assert_eq!(
        SimulatorError::InvalidMarketTime { previous_ns: 50, received_ns: 49 }.message(),
        "market time moved backwards: previous=50, received=49"
    );
    assert_eq!(
        SimulatorError::CrossedMarket { best_bid: 101, best_ask: 100 }.message(),
        "crossed market: best bid 101, best ask 100"
    );
    assert_eq!(SimulatorError::OrderAlreadyTerminal(id).message(), "order is already terminal: o-1");
    assert_eq!(SimulatorError::ArithmeticOverflow.message(), "simulator arithmetic overflow");
}
