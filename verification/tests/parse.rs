use seed_finder::npc::GameData;
use seed_finder::parse::{eq_ignore_ascii_case_exec, name_list_exec, SourceFile};

fn file(path: &str, ext: &str, content: &str) -> SourceFile {
    SourceFile { path: path.to_string(), extension: ext.to_string(), content: content.to_string() }
}

fn sample_files() -> Vec<SourceFile> {
    let language_txt = "Cloth_A\n粗布衣\n\nSword_A\n  铁剑  \nOdd\n";
    let language_xml = "<Texts>\n  <Text Name=\"Spell_Fire\"> 火球术 </Text>\n  <Text Name=\"Broken>\n</Texts>\n";
    let items = [
        "<ThingDefs>\n",
        "<ThingDef Name=\"ClothBase\" Lable=\"Clothes\"></ThingDef>\n",
        "<ThingDef Name=\"Cloth_A\" ParentName=\"ClothBase\" Lable=\"Clothes\"><ThingName>Cloth_A</ThingName></ThingDef>\n",
        "<ThingDef ParentName=\"WeaponBase\" Name=\"Sword_A\" Lable=\"Weapon\"><defName> Sword_A </defName></ThingDef>\n",
        "<ThingDef Name=\"Pants_X\" Lable=\" Trousers \"><ThingName>长裤</ThingName></ThingDef>\n",
        "<ThingDef Name=\"Axe\" Parent=\"ToolBase\"><ThingName>斧</ThingName></ThingDef>\n",
        "<ThingDef Name=\"Iron\" Lable=\"Cargo\"><ThingName>铁块</ThingName><StuffCategories>Metal</StuffCategories></ThingDef>\n",
        "<ThingDef Name=\"FabaoSword\" Lable=\"Other\"><ThingName>飞剑</ThingName></ThingDef>\n",
        "<ThingDef Parent=\"ItemBase\" Name=\"Junk\"></ThingDef>\n",
        "<ThingDef Name=\"Cloth_A\" Lable=\"Clothes\"><ThingName>新布衣</ThingName></ThingDef>\n",
        "<ThingDef Name=\"Ghost\" Lable=\"Clothes\"><ThingName></ThingName></ThingDef>\n",
        "<ThingDef Name=\"Wood_1\" Lable=\"Wood\"><ThingName>木头</ThingName></ThingDef>\n",
        "</ThingDefs>\n"
    ]
    .concat();
    let spells = [
        "<Spells>\n",
        "<Spell Name=\"Spell_Fire\"><DisplayName>Spell_Fire</DisplayName></Spell>\n",
        "<Spell Name=\"Spell_Ice\"><ThingName>冰锥</ThingName></Spell>\n",
        "<Spell Name=\"Spell_X\"></Spell>\n",
        "<Spell><Other/></Spell>\n",
        "</Spells>\n"
    ]
    .concat();
    vec![
        file("/s/Language/OfficialChinese/Items.TXT", "TXT", language_txt),
        file("/s/Language/OfficialChinese/Spells.xml", "xml", language_xml),
        file("/s/Practice/Spell/Spells.xml", "xml", &spells),
        file("/s/ThingDef/Items.xml", "xml", &items),
    ]
}

fn s(v: &[&str]) -> Vec<String> {
    v.iter().map(|x| x.to_string()).collect()
}

#[test]
fn tables_from_settings_files() {
    let files = sample_files();
    let prefix = Some("张\r\n李\n\n  王  \r\n".to_string());
    let f_suffix = Some("灵儿\r\r雪".to_string());
    let d = GameData::from_sources(&files, &prefix, &None, &f_suffix);
    assert_eq!(d.clothes, s(&["新布衣"]));
    assert_eq!(d.pants, s(&["长裤"]));
    assert_eq!(d.weapons, s(&["铁剑", "飞剑"]));
    assert_eq!(d.tools, s(&["斧"]));
    assert_eq!(d.stuffs, s(&["铁块", "木头"]));
    assert_eq!(d.spells, s(&["火球术", "冰锥", "Spell_X"]));
    assert!(d.loaded);
    assert_eq!(d.names_prefix, s(&["张", "李", "王"]));
    assert!(d.names_m_suffix.is_empty());
    assert_eq!(d.names_f_suffix, s(&["灵儿", "雪"]));
}

#[test]
fn no_files_no_tables() {
    let d = GameData::from_sources(&vec![], &None, &None, &None);
    assert!(d.clothes.is_empty() && d.spells.is_empty() && d.tools.is_empty());
    assert!(!d.loaded);
}

#[test]
fn translations_only_come_from_language_files() {
    let files = vec![
        file("/s/Other/Items.txt", "txt", "Cloth_A\n不该用\n"),
        file("/s/ThingDef/A.xml", "xml", "<ThingDef Name=\"Cloth_A\" Lable=\"Clothes\"></ThingDef>"),
    ];
    let d = GameData::from_sources(&files, &None, &None, &None);
    assert_eq!(d.clothes, s(&["Cloth_A"]));
}

#[test]
fn later_translations_win() {
    let files = vec![
        file("/s/Language/a.txt", "txt", "Cloth_A\n旧\n"),
        file("/s/Language/b.txt", "txt", "Cloth_A\n新\n"),
        file("/s/ThingDef/A.xml", "xml", "<ThingDef Name=\"Cloth_A\" Lable=\"Clothes\"></ThingDef>"),
    ];
    let d = GameData::from_sources(&files, &None, &None, &None);
    assert_eq!(d.clothes, s(&["新"]));
}

#[test]
fn name_lists() {
    assert_eq!(name_list_exec(&Some(" a \r\nb\rc\n\n".to_string())), s(&["a", "b", "c"]));
    assert!(name_list_exec(&None).is_empty());
    assert!(name_list_exec(&Some("\n \r\n".to_string())).is_empty());
}

#[test]
fn extension_comparison() {
    assert!(eq_ignore_ascii_case_exec("TXT", "txt"));
    assert!(eq_ignore_ascii_case_exec("XmL", "xml"));
    assert!(!eq_ignore_ascii_case_exec("xm", "xml"));
    assert!(!eq_ignore_ascii_case_exec("csv", "txt"));
}

#[test]
fn redefined_items_keep_their_place() {
    let items = [
        "<ThingDef Name=\"A\" Lable=\"Clothes\"><ThingName>甲</ThingName></ThingDef>",
        "<ThingDef Name=\"B\" Lable=\"Clothes\"><ThingName>乙</ThingName></ThingDef>",
        "<ThingDef Name=\"A\" Lable=\"Clothes\"><ThingName>丙</ThingName></ThingDef>",
    ]
    .concat();
    let files = vec![file("/s/ThingDef/A.xml", "xml", &items)];
    let d = GameData::from_sources(&files, &None, &None, &None);
    assert_eq!(d.clothes, s(&["丙", "乙"]));
}
