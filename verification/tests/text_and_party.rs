use elections::party::Party;
use elections::party::PARTY_COUNT;
use elections::text::compare_text;
use elections::text::same_text;
use elections::text::Placing;

#[test]
fn text_is_ordered_byte_by_byte() {
    assert_eq!(compare_text("", ""), Placing::Level);
    assert_eq!(compare_text("", "a"), Placing::Before);
    assert_eq!(compare_text("a", ""), Placing::After);
    assert_eq!(compare_text("abc", "abd"), Placing::Before);
    assert_eq!(compare_text("abd", "abc"), Placing::After);
    assert_eq!(compare_text("ab", "abc"), Placing::Before);
    assert_eq!(compare_text("abc", "abc"), Placing::Level);
    assert_eq!(compare_text("Z", "a"), Placing::Before);
    assert_eq!(compare_text("Québec", "Quebec"), Placing::After);
    assert_eq!(compare_text("Zed", "Émard"), Placing::Before);
}

#[test]
fn text_order_agrees_with_the_order_of_str() {
    let words = ["", "a", "A", "ab", "abc", "b", "Québec", "Quebec", "Émard", "zz", "Zed"];
    for a in words {
        for b in words {
            let expected = if a < b {
                Placing::Before
            } else if a > b {
                Placing::After
            } else {
                Placing::Level
            };
            assert_eq!(compare_text(a, b), expected);
            assert_eq!(same_text(a, b), a == b);
        }
    }
}

#[test]
fn every_label_of_the_table_is_read() {
    let table = [
        ("Liberal", Party::LIB),
        ("Conservative", Party::CON),
        ("NDP-New Democratic Party", Party::NDP),
        ("Bloc Québécois", Party::BLQ),
        ("Green Party", Party::GRN),
        ("People's Party", Party::PPC),
        ("Independent", Party::IND),
        ("No Affiliation", Party::IND),
        ("Libertarian", Party::LTN),
        ("Parti Rhinocéros Party", Party::RIN),
        ("Rhinoceros", Party::RIN),
        ("neorhino.ca", Party::RIN),
        ("National Citizens Alliance", Party::NCA),
        ("Animal Protection Party", Party::APP),
        ("Animal Alliance/Environment Voters", Party::AAE),
        ("AAEV Party of Canada", Party::AAE),
        ("Democratic Advancement", Party::DAD),
        ("ATN", Party::ATN),
        ("Forces et Démocratie - Allier les forces de nos régions", Party::FED),
        ("VCP", Party::VCP),
        ("Christian Heritage Party", Party::CHP),
        ("CHP Canada", Party::CHP),
        ("Pour l'Indépendance du Québec", Party::PIQ),
        ("Communist", Party::COM),
        ("ML", Party::MXL),
        ("Marxist-Leninist", Party::MXL),
        ("UPC", Party::UPC),
        ("United Party", Party::UPC),
        ("Pirate", Party::PIR),
        ("Pirate Party", Party::PIR),
        ("Radical Marijuana", Party::RMJ),
        ("PC Party", Party::PCP),
        ("Stop Climate Change", Party::SCC),
        ("CFF - Canada's Fourth Front", Party::CFF),
        ("Nationalist", Party::NAT),
        ("Seniors Party", Party::SNR),
        ("Canada Party", Party::CAD),
        ("CAP", Party::CAP),
        ("The Bridge", Party::TBR),
        ("PACT", Party::PACT),
        ("WBP", Party::WBP),
        ("FPNP", Party::FPNP),
        ("Work Less Party", Party::WLP),
        ("PPP", Party::PPP),
        ("NL First Party", Party::NLF),
    ];
    for (label, party) in table {
        assert_eq!(Party::from_label(label), party, "{}", label);
    }
}

#[test]
fn a_label_that_is_not_in_the_table_is_the_catch_all() {
    assert_eq!(Party::from_label(""), Party::OTH);
    assert_eq!(Party::from_label("liberal"), Party::OTH);
    assert_eq!(Party::from_label("Liberal "), Party::OTH);
    assert_eq!(Party::from_label("New Democratic Party"), Party::OTH);
    assert_eq!(Party::from_label("Bloc Quebecois"), Party::OTH);
    assert_eq!(Party::from_label("OTH"), Party::OTH);
}

#[test]
fn parties_are_numbered_in_the_order_of_the_list() {
    assert_eq!(PARTY_COUNT, 38);
    assert_eq!(Party::LIB.index(), 0);
    assert_eq!(Party::CON.index(), 1);
    assert_eq!(Party::PPC.index(), 5);
    assert_eq!(Party::NLF.index(), 36);
    assert_eq!(Party::OTH.index(), 37);
    for i in 0..PARTY_COUNT {
        assert_eq!(Party::from_index(i).index(), i);
    }
    assert!(Party::LIB < Party::CON);
    assert!(Party::NLF < Party::OTH);
}
