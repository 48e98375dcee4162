use yasai::piece::Piece;

const ALL_PIECES: [Piece; 28] = [
    Piece::BFU, Piece::BKY, Piece::BKE, Piece::BGI, Piece::BKA, Piece::BHI, Piece::BKI, Piece::BOU,
    Piece::BTO, Piece::BNY, Piece::BNK, Piece::BNG, Piece::BUM, Piece::BRY,
    Piece::WFU, Piece::WKY, Piece::WKE, Piece::WGI, Piece::WKA, Piece::WHI, Piece::WKI, Piece::WOU,
    Piece::WTO, Piece::WNY, Piece::WNK, Piece::WNG, Piece::WUM, Piece::WRY,
];

#[test]
fn piece_is_promotable() {
    for p in ALL_PIECES {
        let expected = matches!(
            p,
            Piece::BFU | Piece::BKY | Piece::BKE | Piece::BGI | Piece::BKA | Piece::BHI |
            Piece::WFU | Piece::WKY | Piece::WKE | Piece::WGI | Piece::WKA | Piece::WHI
        );
        assert_eq!(expected, p.is_promotable(), "{:?}", p);
    }
}

#[test]
fn piece_promoted() {
    for p in ALL_PIECES {
        let expected = match p {
            Piece::BFU => Piece::BTO,
            Piece::BKY => Piece::BNY,
            Piece::BKE => Piece::BNK,
            Piece::BGI => Piece::BNG,
            Piece::BKA => Piece::BUM,
            Piece::BHI => Piece::BRY,
            Piece::WFU => Piece::WTO,
            Piece::WKY => Piece::WNY,
            Piece::WKE => Piece::WNK,
            Piece::WGI => Piece::WNG,
            Piece::WKA => Piece::WUM,
            Piece::WHI => Piece::WRY,
            _ => p,
        };
        assert_eq!(expected, p.promoted(), "{:?}", p);
    }
}

#[test]
fn piece_demoted() {
    for p in ALL_PIECES {
        let expected = match p {
            Piece::BTO => Piece::BFU,
            Piece::BNY => Piece::BKY,
            Piece::BNK => Piece::BKE,
            Piece::BNG => Piece::BGI,
            Piece::BUM => Piece::BKA,
            Piece::BRY => Piece::BHI,
            Piece::WTO => Piece::WFU,
            Piece::WNY => Piece::WKY,
            Piece::WNK => Piece::WKE,
            Piece::WNG => Piece::WGI,
            Piece::WUM => Piece::WKA,
            Piece::WRY => Piece::WHI,
            _ => p,
        };
        assert_eq!(expected, p.demoted(), "{:?}", p);
    }
}

#[test]
fn piece_codes_round_trip() {
    for p in ALL_PIECES {
        assert_eq!(p, Piece::from_code(p.to_code()));
        assert_eq!(p, Piece::from_cp(p.color(), p.piece_type()));
    }
    assert_eq!(0, Piece::BFU.to_code());
    assert_eq!(29, Piece::WRY.to_code());
}
