use settle::money::Money;
use settle::payment::{Payment, Payments};
use settle::person::Person;

fn named(name: &str, units: i64) -> Person {
    Person::named(name, Money::from_units(units))
}

#[test]
fn money_arithmetic_is_exact() {
    let a = Money::from_units(10);
    let b = Money::from_raw(2500);
    assert_eq!(a.raw(), 10_000);
    assert_eq!(a.add(b).raw(), 12_500);
    assert_eq!(a.sub(b).raw(), 7_500);
    assert_eq!(b.times(3).raw(), 7_500);
    assert!(Money::from_raw(0).is_zero());
    assert!(!b.is_zero());
    assert!(b.le(&a));
    assert!(!a.le(&b));
}

#[test]
fn money_division_truncates_toward_zero() {
    assert_eq!(Money::from_raw(7).div_by(2).raw(), 3);
    assert_eq!(Money::from_raw(-7).div_by(2).raw(), -3);
    assert_eq!(Money::from_units(10).div_by(3).raw(), 3333);
    assert_eq!(Money::from_units(20).div_by(3).raw(), 6666);
}

#[test]
fn money_formats_two_decimal_places() {
    assert_eq!(Money::from_raw(12_345).to_decimal_string(), "12.34");
    assert_eq!(Money::from_raw(-12_345).to_decimal_string(), "-12.34");
    assert_eq!(Money::from_raw(50).to_decimal_string(), "0.05");
    assert_eq!(Money::from_raw(0).to_decimal_string(), "0.00");
    assert_eq!(Money::from_units(3).to_decimal_string(), "3.00");
}

#[test]
fn person_accessors() {
    let p = named("Ana", 12);
    assert_eq!(p.identifier(), "Ana");
    assert_eq!(p.money_spent().raw(), 12_000);
    assert_eq!(p.size(), 1);
    let g = Person::unnamed(3);
    assert_eq!(g.identifier(), "Outras 3 pessoas");
    assert_eq!(g.money_spent().raw(), 0);
    assert_eq!(g.size(), 3);
    assert_eq!(named("Ana", 12), named("Ana", 12));
    assert!(named("Ana", 12) != named("Bia", 12));
    assert!(named("Ana", 12) != Person::unnamed(1));
}

#[test]
fn scenario_three_named_participants() {
    // A spent 10.00, B spent 20.00, C spent nothing
    let persons = vec![named("A", 10), named("B", 20), named("C", 0)];
    let mut payments = Payments::from_persons(&persons);

    let naive = payments.to_vec();
    assert_eq!(naive.len(), 4);
    for p in &naive {
        assert!(p.from.identifier() != p.to.identifier());
        assert!(p.value.raw() > 0);
    }
    assert!(payments.validate());

    payments.optimize();
    let settled = payments.to_vec();
    // A already paid an exact share: one transfer remains, C pays B
    assert_eq!(settled.len(), 1);
    assert_eq!(settled[0].from.identifier(), "C");
    assert_eq!(settled[0].to.identifier(), "B");
    assert_eq!(settled[0].value.raw(), 9_999);
    assert!(settled.len() <= naive.len());
    assert!(payments.validate());
}

#[test]
fn scenario_anonymous_group() {
    let persons = vec![named("A", 10), named("B", 20), Person::unnamed(1)];
    let mut payments = Payments::from_persons(&persons);
    let naive_len = payments.to_vec().len();
    assert_eq!(naive_len, 4);

    payments.optimize();
    let settled = payments.to_vec();
    let anon_total: i64 = settled
        .iter()
        .filter(|p| p.from.identifier() == "Outras 1 pessoas")
        .map(|p| p.value.raw())
        .sum();
    // the anonymous member owes one third of 30.00, minus truncation
    assert_eq!(anon_total, 9_999);
    assert_eq!(settled.len(), 1);
    assert_eq!(settled[0].to.identifier(), "B");
    assert!(payments.validate());
}

#[test]
fn scenario_equal_spenders_settle_to_nothing() {
    let persons = vec![
        named("A", 12),
        named("B", 12),
        named("C", 12),
        named("D", 12),
    ];
    let mut payments = Payments::from_persons(&persons);
    let naive_len = payments.to_vec().len();
    assert_eq!(naive_len, 12);

    payments.optimize();
    let settled = payments.to_vec();
    assert_eq!(settled.len(), 0);
    assert!(settled.len() <= naive_len);
    assert!(payments.validate());
    // the participants stay on the graph even with no transfers left
    assert_eq!(payments.get_persons().len(), 4);
}

#[test]
fn scenario_tolerance_boundary() {
    // two people, 20.00 spent in total: the even share is 10.00 and the
    // tolerance is one hundredth of a currency unit (10 minor units)
    let a = named("A", 20);
    let b = named("B", 0);

    let at_boundary = Payments::new(&vec![Payment::new(&b, &a, Money::from_raw(10_010))]);
    assert!(at_boundary.validate());

    let beyond = Payments::new(&vec![Payment::new(&b, &a, Money::from_raw(10_011))]);
    assert!(!beyond.validate());
}

#[test]
fn validation_is_repeatable() {
    let persons = vec![named("A", 10), named("B", 20), named("C", 0)];
    let mut payments = Payments::from_persons(&persons);
    payments.optimize();
    let first = payments.validate();
    let second = payments.validate();
    assert_eq!(first, second);
    assert!(first);
}

#[test]
fn graph_construction_coalesces_duplicate_pairs() {
    let a = named("A", 0);
    let b = named("B", 0);
    let payments = Payments::new(&vec![
        Payment::new(&a, &b, Money::from_raw(100)),
        Payment::new(&a, &b, Money::from_raw(250)),
    ]);
    let list = payments.to_vec();
    assert_eq!(list.len(), 1);
    assert_eq!(list[0].from.identifier(), "A");
    assert_eq!(list[0].to.identifier(), "B");
    assert_eq!(list[0].value.raw(), 350);
}

#[test]
fn graph_keeps_ordered_pairs_exactly() {
    let a = named("A", 0);
    let b = named("B", 0);
    let c = named("C", 0);
    let d = named("D", 0);
    let payments = Payments::new(&vec![
        Payment::new(&a, &b, Money::from_raw(5_000)),
        Payment::new(&c, &d, Money::from_raw(7_000)),
    ]);
    let list = payments.to_vec();
    assert_eq!(list.len(), 2);
    assert_eq!(list[0].from.identifier(), "A");
    assert_eq!(list[0].to.identifier(), "B");
    assert_eq!(list[0].value.raw(), 5_000);
    assert_eq!(list[1].from.identifier(), "C");
    assert_eq!(list[1].to.identifier(), "D");
    assert_eq!(list[1].value.raw(), 7_000);
}

#[test]
fn degenerate_inputs_are_handled() {
    // nobody at all
    let empty: Vec<Person> = Vec::new();
    let mut none = Payments::from_persons(&empty);
    assert_eq!(none.to_vec().len(), 0);
    assert!(none.validate());
    none.optimize();
    assert_eq!(none.to_vec().len(), 0);

    // a single participant owes nobody
    let solo = vec![named("A", 10)];
    let mut one = Payments::from_persons(&solo);
    assert_eq!(one.to_vec().len(), 0);
    assert!(one.validate());
    one.optimize();
    assert_eq!(one.to_vec().len(), 0);

    // nobody spent anything
    let zeros = vec![named("A", 0), named("B", 0)];
    let mut z = Payments::from_persons(&zeros);
    assert_eq!(z.to_vec().len(), 0);
    z.optimize();
    assert_eq!(z.to_vec().len(), 0);
    assert!(z.validate());
}

#[test]
fn get_persons_keeps_input_order() {
    let persons = vec![named("A", 1), named("B", 2), Person::unnamed(2)];
    let payments = Payments::from_persons(&persons);
    let back = payments.get_persons();
    assert_eq!(back.len(), 3);
    assert_eq!(back[0].identifier(), "A");
    assert_eq!(back[1].identifier(), "B");
    assert_eq!(back[2].identifier(), "Outras 2 pessoas");
}

#[test]
fn optimizer_preserves_every_net_balance() {
    let persons = vec![
        named("A", 7),
        named("B", 13),
        named("C", 2),
        Person::unnamed(2),
    ];
    let mut payments = Payments::from_persons(&persons);
    let naive = payments.to_vec();
    payments.optimize();
    let settled = payments.to_vec();
    assert!(settled.len() <= naive.len());
    for who in ["A", "B", "C", "Outras 2 pessoas"] {
        assert_eq!(net_of(&naive, who), net_of(&settled, who));
    }
    assert!(payments.validate());
}

#[test]
fn total_money_is_conserved() {
    let persons = vec![
        named("A", 33),
        named("B", 5),
        named("C", 0),
        named("D", 17),
        Person::unnamed(3),
    ];
    let mut payments = Payments::from_persons(&persons);
    payments.optimize();
    let ids = [
        "A",
        "B",
        "C",
        "D",
        "Outras 3 pessoas",
    ];
    let settled = payments.to_vec();
    let net_total: i64 = ids.iter().map(|who| net_of(&settled, who)).sum();
    assert_eq!(net_total, 0);
    let flowing_in: i64 = settled.iter().map(|p| p.value.raw()).sum();
    let flowing_out: i64 = ids
        .iter()
        .map(|who| {
            settled
                .iter()
                .filter(|p| p.from.identifier() == *who)
                .map(|p| p.value.raw())
                .sum::<i64>()
        })
        .sum();
    assert_eq!(flowing_in, flowing_out);
    assert!(payments.validate());
}

#[test]
fn larger_group_settles_with_few_transfers() {
    let mut persons = Vec::new();
    for (i, units) in [40, 0, 25, 8, 0, 13, 2, 60].iter().enumerate() {
        persons.push(named(&format!("p{i}"), *units));
    }
    let mut payments = Payments::from_persons(&persons);
    let naive = payments.to_vec();
    assert_eq!(naive.len(), 6 * 7);
    payments.optimize();
    let settled = payments.to_vec();
    assert!(settled.len() <= 7);
    assert!(settled.len() < naive.len());
    for p in &settled {
        assert!(p.from.identifier() != p.to.identifier());
        assert!(p.value.raw() > 0);
    }
    for i in 0..8 {
        let who = format!("p{i}");
        assert_eq!(net_of(&naive, &who), net_of(&settled, &who));
    }
    assert!(payments.validate());
}

fn net_of(list: &[Payment], who: &str) -> i64 {
    let received: i64 = list
        .iter()
        .filter(|p| p.to.identifier() == who)
        .map(|p| p.value.raw())
        .sum();
    let paid: i64 = list
        .iter()
        .filter(|p| p.from.identifier() == who)
        .map(|p| p.value.raw())
        .sum();
    received - paid
}
