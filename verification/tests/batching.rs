use tetrachrome::batching::RowStatus;
use tetrachrome::batch::{plan, sorted_unique, Event, LogLevel};
use tetrachrome::export::{failed_line, group_files, output_path, skipped_line, written_line};
use tetrachrome::model::{OutputFormat, SizePolicy};
use tetrachrome::presets::builtin;
use tetrachrome::session::Session;
use tetrachrome::state::{OutputSettings, ToastKind};

fn session(folder: Option<&str>) -> Session {
    let output = OutputSettings {
        template: "{basename}{label}".to_string(),
        format: OutputFormat::Tga,
        sixteen: false,
        folder: folder.map(|f| f.to_string()),
        policy: SizePolicy::Largest,
        custom: (1024, 1024),
        overwrite: false,
    };
    Session::new(Vec::new(), output)
}

fn strings(v: &[&str]) -> Vec<String> {
    v.iter().map(|s| s.to_string()).collect()
}

#[test]
fn file_lists_are_sorted_and_unique() {
    let files = strings(&["b/x.png", "a/z.png", "b/x.png", "a/y.png"]);
    assert_eq!(sorted_unique(&files), strings(&["a/y.png", "a/z.png", "b/x.png"]));
    assert!(sorted_unique(&Vec::new()).is_empty());
}

#[test]
fn every_file_lands_once() {
    let preset = builtin().into_iter().find(|p| p.label == "_MaskMap").unwrap();
    let files = strings(&["a/Rock_AO.png", "a/Rock_Occlusion.png", "a/Rock_Metal.png", "a/readme.png"]);
    let p = plan(&files, &preset);
    let placed: usize = p.groups.iter().map(|g| g.files.iter().filter(|f| f.is_some()).count()).sum();
    assert_eq!(placed + p.unmatched.len() + p.conflicts.len(), files.len());
    assert_eq!((placed, p.unmatched.len(), p.conflicts.len()), (2, 1, 1));
}

#[test]
fn batch_tab_flow() {
    let mut s = session(None);
    s.batch_add(&strings(&["m/Wood_AO.png", "m/Rock_AO.png", "m/Rock_Metallic.png", "m/Stone_Albedo.png"]));
    assert_eq!(s.batch.files[0], "m/Rock_AO.png");
    assert_eq!(s.batch.files.len(), 4);
    s.batch_add(&strings(&["m/Rock_AO.png"]));
    assert_eq!(s.notices.last().unwrap().text, "No new images found");
    s.refresh_plan();
    assert_eq!(s.batch.plan.groups.len(), 2);
    assert_eq!(s.batch_enabled().len(), 2);
    s.batch.disabled.push("wood".to_string());
    let enabled = s.batch_enabled();
    assert_eq!(enabled.len(), 1);
    assert_eq!(enabled[0].base, "Rock");
    assert_eq!(s.batch_out_dir(), Some("m/packed".to_string()));
    let job = s.start_batch().unwrap();
    assert_eq!(job.groups.len(), 1);
    assert_eq!(job.out_dir, "m/packed");
    assert_eq!(s.batch.log, vec![(LogLevel::Info, "Packing 1 materials into m/packed".to_string())]);
    assert!(s.start_batch().is_none());
    s.batch_event(Event::Log(LogLevel::Success, "Rock done".to_string()));
    s.batch_event(Event::Done(0, false));
    assert_eq!(s.batch_status(&"rock".to_string()), Some(false));
    s.batch_event(Event::Done(0, true));
    assert_eq!(s.batch_status(&"rock".to_string()), Some(true));
    assert_eq!(s.batch.status.len(), 1);
    s.batch_event(Event::Finished);
    assert!(s.batch.run.is_none());
    assert_eq!(s.batch.finished_dir, Some("m/packed".to_string()));
    let last = s.notices.last().unwrap();
    assert_eq!(last.kind, ToastKind::Success);
    assert_eq!(last.text, "Batch finished: 1 materials");
    assert_eq!(last.reveal, Some("m/packed".to_string()));
}

#[test]
fn failures_are_counted() {
    let mut s = session(Some("out"));
    s.batch_add(&strings(&["m/Rock_AO.png", "m/Wood_AO.png"]));
    s.refresh_plan();
    let job = s.start_batch().unwrap();
    assert_eq!(job.out_dir, "out");
    s.batch_event(Event::Done(0, true));
    s.batch_event(Event::Done(1, false));
    s.batch_event(Event::Done(7, false));
    s.batch_event(Event::Finished);
    let last = s.notices.last().unwrap();
    assert_eq!(last.kind, ToastKind::Warning);
    assert_eq!(last.text, "Batch finished: 1 of 2 failed");
}

#[test]
fn nothing_to_do() {
    let mut s = session(None);
    assert!(s.start_batch().is_none());
    assert_eq!(s.notices.last().unwrap().text, "Choose an output folder");
    let mut s = session(Some("out"));
    assert!(s.start_batch().is_none());
    assert_eq!(s.notices.last().unwrap().text, "Nothing to process");
}

#[test]
fn batch_files_and_lines() {
    let mut s = session(Some("out"));
    s.batch_add(&strings(&["m/Rock_AO.png", "m/Rock_Metallic.png"]));
    s.refresh_plan();
    let job = s.start_batch().unwrap();
    let path = output_path(&job, &job.groups[0], "2024-05-01");
    assert_eq!(path, "out/Rock_MaskMap.tga");
    assert_eq!(group_files(&job.groups[0]), strings(&["m/Rock_Metallic.png", "m/Rock_AO.png"]));
    assert!(job.skips(true));
    assert!(!job.skips(false));
    let base = "Rock".to_string();
    assert_eq!(written_line(&base, &"Rock_MaskMap.tga".to_string(), (512, 256)), "Rock → Rock_MaskMap.tga (512×256)");
    assert_eq!(skipped_line(&base, &"Rock_MaskMap.tga".to_string()), "Rock: Rock_MaskMap.tga exists, skipped");
    assert_eq!(failed_line(&base, &"bad file".to_string()), "Rock: bad file");
}

#[test]
fn the_plan_depends_on_the_files_alone() {
    let preset = builtin().into_iter().find(|p| p.label == "_MaskMap").unwrap();
    let a = strings(&["z/Wood_AO.png", "z/Rock_Metal.png", "z/rock_ao.png"]);
    let b = strings(&["z/Wood_AO.png", "z/Rock_Metal.png", "z/rock_ao.png"]);
    let (p, q) = (plan(&a, &preset), plan(&b, &preset));
    let bases = |p: &tetrachrome::batch::Plan| p.groups.iter().map(|g| g.base.clone()).collect::<Vec<_>>();
    assert_eq!(bases(&p), bases(&q));
    assert_eq!(bases(&p), vec!["Rock".to_string(), "Wood".to_string()]);
    assert_eq!(p.unmatched, q.unmatched);
}

#[test]
fn plan_places_files_by_their_suffix() {
    let preset = builtin().into_iter().find(|p| p.label == "_MaskMap").unwrap();
    let files = strings(&["a/Rock_AO.png", "a/x.png", "a/Rock_Occlusion.png", "a/y.png", "a/Rock_Metal.png"]);
    let p = plan(&files, &preset);
    assert_eq!(p.unmatched, strings(&["a/x.png", "a/y.png"]));
    assert!(p.groups.iter().all(|g| g.files.iter().any(|f| f.is_some())));
    assert_eq!(p.conflicts, vec![("a/Rock_Occlusion.png".to_string(), "Rock G".to_string())]);
    assert_eq!(p.groups[0].files[1], Some("a/Rock_AO.png".to_string()));
}

#[test]
fn material_status_in_the_table() {
    let mut s = session(Some("out"));
    s.batch_add(&strings(&["m/Rock_AO.png", "m/Rock_Metallic.png", "m/Rock_DetailMask.png", "m/Rock_Smoothness.png", "m/Wood_AO.png"]));
    s.refresh_plan();
    let groups = s.batch.plan.groups.clone();
    assert_eq!(s.material_status(&groups[0]), RowStatus::Ready);
    assert_eq!(s.material_status(&groups[1]), RowStatus::Partial);
    s.start_batch().unwrap();
    s.batch_event(Event::Done(0, true));
    s.batch_event(Event::Done(1, false));
    assert_eq!(s.material_status(&groups[0]), RowStatus::Done);
    assert_eq!(s.material_status(&groups[1]), RowStatus::Failed);
}

#[test]
fn added_files_stay_strictly_sorted() {
    let mut s = session(None);
    s.batch_add(&strings(&["m/b.png", "m/a.png", "m/./a.png", "l/z.png"]));
    s.batch_add(&strings(&["m/c.png", "m/a.png"]));
    let files = &s.batch.files;
    assert!(files.windows(2).all(|w| std::path::Path::new(&w[0]) < std::path::Path::new(&w[1])));
    assert_eq!(files, &strings(&["l/z.png", "m/a.png", "m/b.png", "m/c.png"]));
}
