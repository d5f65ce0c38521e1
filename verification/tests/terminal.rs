use adam_core::ids::{FirmId, RegionId, ShipmentId, TerminalId};
use adam_core::terminal::{LogisticsTerminal, TerminalCapacityLedger, TerminalQueue, TerminalQueueEntry};
use adam_core::value::{Money, QuantityMilli};

#[test]
fn terminal_capacity_is_shared_and_released() {
    let terminal = LogisticsTerminal::new(
        TerminalId::new(1),
        RegionId::new(1),
        FirmId::new(1),
        QuantityMilli::new(1000),
        Money::from_minor_units(2),
        1,
    )
    .expect("terminal");
    let mut ledger = TerminalCapacityLedger::default();
    ledger
        .reserve(&terminal, QuantityMilli::new(700))
        .expect("reserve");
    assert!(ledger.reserve(&terminal, QuantityMilli::new(301)).is_err());
    ledger
        .release(terminal.id(), QuantityMilli::new(700))
        .expect("release");
    assert!(ledger.used().is_empty());
}

#[test]
fn terminal_queue_is_fifo_and_head_blocks_later_cargo() {
    let terminal = LogisticsTerminal::new(
        TerminalId::new(1),
        RegionId::new(1),
        FirmId::new(1),
        QuantityMilli::new(1000),
        Money::from_minor_units(1),
        1,
    )
    .expect("terminal");
    let mut queue = TerminalQueue::default();
    queue
        .enqueue(
            terminal.id(),
            TerminalQueueEntry::new(ShipmentId::new(1), QuantityMilli::new(700)),
        )
        .expect("queue");
    queue
        .enqueue(
            terminal.id(),
            TerminalQueueEntry::new(ShipmentId::new(2), QuantityMilli::new(400)),
        )
        .expect("queue");
    let mut capacity = TerminalCapacityLedger::default();
    let admitted = queue.admit_waiting(&terminal, &mut capacity);
    assert_eq!(
        admitted
            .iter()
            .map(|entry| entry.shipment())
            .collect::<Vec<_>>(),
        vec![ShipmentId::new(1)]
    );
    assert_eq!(
        queue.waiting()[&terminal.id().get()][0].shipment(),
        ShipmentId::new(2)
    );
}

#[test]
fn a_shipment_is_queued_once_and_terminals_reject_bad_values() {
    let mut queue = TerminalQueue::default();
    let entry = TerminalQueueEntry::new(ShipmentId::new(9), QuantityMilli::new(10));
    queue.enqueue(TerminalId::new(1), entry).expect("queue");
    assert!(queue.enqueue(TerminalId::new(2), entry).is_err());
    assert!(queue.is_queued(ShipmentId::new(9)));
    assert!(LogisticsTerminal::new(
        TerminalId::new(3),
        RegionId::new(1),
        FirmId::new(1),
        QuantityMilli::new(0),
        Money::from_minor_units(1),
        1,
    )
    .is_err());
}
