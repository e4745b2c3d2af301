use metis_core::{part_kway, part_recursive, MetisParams};

#[test]
fn root_api_supports_metis_style_entry_points() {
    let xadj = [0, 2, 4, 6, 8];
    let adjncy = [1, 3, 0, 2, 1, 3, 0, 2];
    let recursive = part_recursive(&xadj, &adjncy, &[], &[], 2, MetisParams::recursive()).expect("recursive partition should succeed");
    let kway = part_kway(&xadj, &adjncy, &[], &[], 2, MetisParams::kway()).expect("kway should succeed");
    assert_eq!(recursive.len(), 4);
    assert_eq!(kway.len(), 4);
    assert!(recursive.iter().all(|&part| part < 2));
    assert!(kway.iter().all(|&part| part < 2));
}
